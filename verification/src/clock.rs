//! The vector clock: for each peer, the highest lamport observed from it.

use vstd::prelude::*;

use crate::assoc::{assoc_map, keys_unique, lemma_assoc_contains_one, lemma_assoc_index,
    lemma_assoc_push, lemma_assoc_update};
use crate::OpId;

verus! {

/// One vector-clock entry.
pub struct ClockEntry {
    pub peer: u64,
    pub lamport: u32,
}

/// Summary of causal history: maps each known peer to the highest lamport
/// observed from it. The empty clock means "nothing seen".
pub struct VectorClock {
    pub entries: Vec<ClockEntry>,
}

pub open spec fn clock_key() -> spec_fn(ClockEntry) -> u64 {
    |e: ClockEntry| e.peer
}

pub open spec fn clock_val() -> spec_fn(ClockEntry) -> u32 {
    |e: ClockEntry| e.lamport
}

impl View for VectorClock {
    type V = Map<u64, u32>;

    open spec fn view(&self) -> Map<u64, u32> {
        assoc_map(self.entries@, clock_key(), clock_val())
    }
}

/// Whether a clock covers an operation: its peer is known and its lamport
/// is at or below the recorded one.
pub open spec fn clock_includes(m: Map<u64, u32>, op: OpId) -> bool {
    m.contains_key(op.peer) && m[op.peer] >= op.lamport
}

/// The lamport a clock records for a peer, zero when unknown.
pub open spec fn clock_of(m: Map<u64, u32>, peer: u64) -> u32 {
    if m.contains_key(peer) {
        m[peer]
    } else {
        0u32
    }
}

impl VectorClock {
    pub open spec fn wf(self) -> bool {
        keys_unique(self.entries@, clock_key())
    }

    /// The empty clock.
    pub fn new() -> (r: Self)
        ensures
            r.wf(),
            r@ == Map::<u64, u32>::empty(),
    {
        let r = VectorClock { entries: Vec::new() };
        proof {
            assert(r@ =~= Map::<u64, u32>::empty());
        }
        r
    }

    /// A copy with the same contents.
    pub fn dup(&self) -> (r: Self)
        ensures
            r@ == self@,
            r.wf() == self.wf(),
            r.entries@ == self.entries@,
    {
        let mut entries: Vec<ClockEntry> = Vec::new();
        let mut i: usize = 0;
        while i < self.entries.len()
            invariant
                i <= self.entries@.len(),
                entries@ =~= self.entries@.take(i as int),
            decreases self.entries@.len() - i,
        {
            entries.push(ClockEntry { peer: self.entries[i].peer, lamport: self.entries[i].lamport });
            proof {
                assert(entries@ =~= self.entries@.take(i as int + 1));
            }
            i += 1;
        }
        proof {
            assert(self.entries@.take(self.entries@.len() as int) =~= self.entries@);
        }
        VectorClock { entries }
    }

    fn find(&self, peer: u64) -> (r: Option<usize>)
        ensures
            match r {
                Some(i) => i < self.entries@.len() && self.entries@[i as int].peer == peer,
                None => forall|i: int|
                    0 <= i < self.entries@.len() ==> (#[trigger] self.entries@[i]).peer != peer,
            },
    {
        let mut i: usize = 0;
        while i < self.entries.len()
            invariant
                i <= self.entries@.len(),
                forall|k: int| 0 <= k < i ==> (#[trigger] self.entries@[k]).peer != peer,
            decreases self.entries@.len() - i,
        {
            if self.entries[i].peer == peer {
                return Some(i);
            }
            i += 1;
        }
        None
    }

    /// The recorded lamport for a peer, zero when the peer is unknown.
    pub fn get(&self, peer: u64) -> (r: u32)
        requires
            self.wf(),
        ensures
            r == clock_of(self@, peer),
    {
        proof {
            lemma_clock_contains(self.entries@, peer);
        }
        match self.find(peer) {
            Some(i) => {
                proof {
                    lemma_assoc_index(self.entries@, clock_key(), clock_val(), i as int);
                }
                self.entries[i].lamport
            },
            None => 0,
        }
    }

    /// Raise the clock so that it covers `op`.
    pub fn extend_to_include(&mut self, op: OpId)
        requires
            old(self).wf(),
        ensures
            final(self).wf(),
            final(self)@ == old(self)@.insert(
                op.peer,
                if clock_of(old(self)@, op.peer) >= op.lamport {
                    clock_of(old(self)@, op.peer)
                } else {
                    op.lamport
                },
            ),
    {
        let ghost e0 = self.entries@;
        proof {
            lemma_clock_contains(e0, op.peer);
        }
        match self.find(op.peer) {
            Some(i) => {
                proof {
                    lemma_assoc_index(e0, clock_key(), clock_val(), i as int);
                }
                let cur = self.entries[i].lamport;
                let new_l = if cur >= op.lamport {
                    cur
                } else {
                    op.lamport
                };
                let entry = &mut self.entries[i];
                entry.lamport = new_l;
                proof {
                    assert(self.entries@ =~= e0.update(
                        i as int,
                        ClockEntry { peer: op.peer, lamport: new_l },
                    ));
                    lemma_assoc_update(
                        e0,
                        clock_key(),
                        clock_val(),
                        i as int,
                        self.entries@[i as int],
                    );
                }
            },
            None => {
                self.entries.push(ClockEntry { peer: op.peer, lamport: op.lamport });
                proof {
                    lemma_assoc_push(e0, clock_key(), clock_val(), self.entries@.last());
                }
            },
        }
    }

    /// Whether this clock already covers `op`.
    pub fn includes(&self, op: OpId) -> (r: bool)
        requires
            self.wf(),
        ensures
            r == clock_includes(self@, op),
    {
        proof {
            lemma_clock_contains(self.entries@, op.peer);
        }
        match self.find(op.peer) {
            Some(i) => {
                proof {
                    lemma_assoc_index(self.entries@, clock_key(), clock_val(), i as int);
                }
                self.entries[i].lamport >= op.lamport
            },
            None => false,
        }
    }
}

/// The wire list of a clock: peer and lamport of each entry, in order.
pub open spec fn clock_flat(entries: Seq<ClockEntry>) -> Seq<u64>
    decreases entries.len(),
{
    if entries.len() == 0 {
        Seq::empty()
    } else {
        clock_flat(entries.drop_last()) + seq![
            entries.last().peer,
            entries.last().lamport as u64,
        ]
    }
}

/// The clock a wire list stands for: pairs folded left to right, a later
/// entry for a peer raising the earlier one.
pub open spec fn clock_of_flat(l: Seq<u64>, k: nat) -> Map<u64, u32>
    decreases l.len() - 2 * k,
{
    if 2 * k + 1 >= l.len() {
        Map::empty()
    } else {
        let rest = clock_of_flat(l, k + 1);
        let p = l[2 * k as int];
        let lam = l[2 * k as int + 1] as u32;
        if rest.contains_key(p) && rest[p] >= lam {
            rest
        } else {
            rest.insert(p, lam)
        }
    }
}

impl VectorClock {
    /// The compact wire form: a counted list of peer and lamport pairs.
    pub fn encode(&self) -> (r: Vec<u8>)
        ensures
            r@ == crate::varint::varint(clock_flat(self.entries@).len() as u64)
                + crate::encode::wire::u64s_bytes(clock_flat(self.entries@)),
    {
        let mut flat: Vec<u64> = Vec::new();
        let mut k: usize = 0;
        while k < self.entries.len()
            invariant
                k <= self.entries@.len(),
                flat@ == clock_flat(self.entries@.take(k as int)),
            decreases self.entries@.len() - k,
        {
            flat.push(self.entries[k].peer);
            flat.push(self.entries[k].lamport as u64);
            proof {
                assert(self.entries@.take(k as int + 1).drop_last() =~= self.entries@.take(
                    k as int,
                ));
                assert(self.entries@.take(k as int + 1).last() == self.entries@[k as int]);
                assert(flat@ =~= clock_flat(self.entries@.take(k as int + 1)));
            }
            k += 1;
        }
        proof {
            assert(self.entries@.take(self.entries@.len() as int) =~= self.entries@);
        }
        let mut out: Vec<u8> = Vec::new();
        crate::encode::wire::push_u64_list(&mut out, &flat);
        proof {
            assert(out@ =~= crate::varint::varint(clock_flat(self.entries@).len() as u64)
                + crate::encode::wire::u64s_bytes(clock_flat(self.entries@)));
        }
        out
    }

    /// Decode a wire-form clock: the pairs folded into a clock, a later
    /// pair for a peer raising the earlier one. `None` on malformed
    /// input: a bad list, trailing bytes, an odd pair count or a lamport
    /// out of range.
    pub fn decode(encoded: &[u8]) -> (r: Option<VectorClock>)
        ensures
            match r {
                Some(vc) => {
                    &&& vc.wf()
                    &&& crate::encode::wire::parse_u64_list(encoded@, 0) matches Some(p) && p.1
                        == encoded@.len() && p.0.len() % 2 == 0 && vc@ == clock_of_flat(p.0, 0)
                },
                None => !(crate::encode::wire::parse_u64_list(encoded@, 0) matches Some(p) && p.1
                    == encoded@.len() && p.0.len() % 2 == 0 && (forall|k: int|
                    0 <= 2 * k + 1 < p.0.len() ==> #[trigger] p.0[2 * k + 1] <= u32::MAX)),
            },
    {
        let mut pos: usize = 0;
        let flat = match crate::encode::wire::read_u64_list(encoded, &mut pos) {
            None => {
                return None;
            },
            Some(v) => v,
        };
        if pos != encoded.len() || flat.len() % 2 != 0 {
            return None;
        }
        let mut vc = VectorClock::new();
        let mut k: usize = flat.len() / 2;
        proof {
            assert(flat@.len() == flat.len());
            vstd::arithmetic::div_mod::lemma_fundamental_div_mod(flat@.len() as int, 2);
            assert(clock_of_flat(flat@, k as nat) =~= Map::<u64, u32>::empty());
        }
        while k > 0
            invariant
                2 * k <= flat@.len(),
                flat@.len() <= usize::MAX,
                flat@.len() % 2 == 0,
                crate::encode::wire::parse_u64_list(encoded@, 0) matches Some(pp) && pp.0 == flat@
                    && pp.1 == encoded@.len(),
                vc.wf(),
                vc@ == clock_of_flat(flat@, k as nat),
                forall|q: int|
                    k <= q && 2 * q + 1 < flat@.len() ==> #[trigger] flat@[2 * q + 1]
                        <= u32::MAX,
            decreases k,
    {
            k = k - 1;
            proof {
                assert(2 * (k as int) + 1 < flat@.len());
            }
            let lam64 = flat[2 * k + 1];
            if lam64 > u32::MAX as u64 {
                proof {
                    assert(flat@[2 * (k as int) + 1] > u32::MAX);
                }
                return None;
            }
            let p = flat[2 * k];
            let lam = lam64 as u32;
            vc.extend_to_include(OpId { lamport: lam, peer: p });
            proof {
                assert(vc@ =~= clock_of_flat(flat@, k as nat));
            }
        }
        Some(vc)
    }
}

/// Folding a list extended by one pair merges that pair on top.
proof fn lemma_clock_of_flat_snoc(l: Seq<u64>, p: u64, lam: u32, k: nat)
    requires
        l.len() % 2 == 0,
        2 * k <= l.len(),
    ensures
        ({
            let rest = clock_of_flat(l, k);
            clock_of_flat(l + seq![p, lam as u64], k) == (if rest.contains_key(p) && rest[p]
                >= lam {
                rest
            } else {
                rest.insert(p, lam)
            })
        }),
    decreases l.len() - 2 * k,
{
    let ext = l + seq![p, lam as u64];
    if 2 * k + 1 >= l.len() {
        assert(2 * k == l.len());
        assert(ext[2 * k as int] == p);
        assert(ext[2 * k as int + 1] == lam as u64);
        assert(clock_of_flat(ext, k + 1) =~= Map::<u64, u32>::empty());
        assert(clock_of_flat(l, k) =~= Map::<u64, u32>::empty());
    } else {
        lemma_clock_of_flat_snoc(l, p, lam, k + 1);
        assert(ext[2 * k as int] == l[2 * k as int]);
        assert(ext[2 * k as int + 1] == l[2 * k as int + 1]);
        let goal_rest = clock_of_flat(l, k);
        assert(clock_of_flat(ext, k) =~= (if goal_rest.contains_key(p) && goal_rest[p] >= lam {
            goal_rest
        } else {
            goal_rest.insert(p, lam)
        }));
    }
}

/// Round trip of the wire list: folding the flat form of a well-formed
/// clock rebuilds exactly its map.
pub proof fn lemma_clock_flat_round_trip(entries: Seq<ClockEntry>)
    requires
        keys_unique(entries, clock_key()),
    ensures
        clock_flat(entries).len() == 2 * entries.len(),
        clock_flat(entries).len() % 2 == 0,
        clock_of_flat(clock_flat(entries), 0) == assoc_map(entries, clock_key(), clock_val()),
    decreases entries.len(),
{
    if entries.len() > 0 {
        lemma_clock_flat_round_trip(entries.drop_last());
        let last = entries.last();
        lemma_clock_of_flat_snoc(clock_flat(entries.drop_last()), last.peer, last.lamport, 0);
        let rest = clock_of_flat(clock_flat(entries.drop_last()), 0);
        if rest.contains_key(last.peer) {
            lemma_clock_contains(entries.drop_last(), last.peer);
            let i = choose|i: int|
                0 <= i < entries.drop_last().len() && (#[trigger] entries.drop_last()[i]).peer
                    == last.peer;
            assert(clock_key()(entries[i]) == clock_key()(entries[entries.len() - 1]));
            assert(false);
        }
    }
}

/// Instantiated key-occurrence lemma for clock entries.
pub proof fn lemma_clock_contains(entries: Seq<ClockEntry>, peer: u64)
    ensures
        assoc_map(entries, clock_key(), clock_val()).contains_key(peer) <==> exists|i: int|
            0 <= i < entries.len() && (#[trigger] entries[i]).peer == peer,
{
    lemma_assoc_contains_one(entries, clock_key(), clock_val(), peer);
    if exists|i: int| 0 <= i < entries.len() && clock_key()(#[trigger] entries[i]) == peer {
        let i = choose|i: int| 0 <= i < entries.len() && clock_key()(#[trigger] entries[i]) == peer;
        assert(entries[i].peer == peer);
    }
    if exists|i: int| 0 <= i < entries.len() && (#[trigger] entries[i]).peer == peer {
        let i = choose|i: int| 0 <= i < entries.len() && (#[trigger] entries[i]).peer == peer;
        assert(clock_key()(entries[i]) == peer);
    }
}

} // verus!
