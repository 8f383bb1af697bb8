//! Run-length coding of boolean streams: alternating run lengths as
//! varints, the first run counting `false` values (possibly zero long).

use vstd::prelude::*;

use crate::varint::{lemma_parse_varint_bounds, lemma_varint_nonempty, lemma_varint_round_trip,
    parse_varint, push_varint, read_varint, varint};

verus! {

/// Parse a run-length stream from position `i`, the current run carrying
/// `cur`: the decoded booleans. `None` on malformed varints.
pub open spec fn parse_bools(s: Seq<u8>, i: int, cur: bool) -> Option<Seq<bool>>
    decreases s.len() - i,
    when 0 <= i
    via parse_bools_dec
{
    if i == s.len() {
        Some(Seq::empty())
    } else {
        match parse_varint(s, i) {
            None => None,
            Some((n, j)) => match parse_bools(s, j, !cur) {
                None => None,
                Some(rest) => Some(Seq::new(n as nat, |k: int| cur) + rest),
            },
        }
    }
}

#[via_fn]
proof fn parse_bools_dec(s: Seq<u8>, i: int, cur: bool) {
    lemma_parse_varint_bounds(s, i);
}

/// Parsing runs is invariant under dropping a consumed prefix.
pub proof fn lemma_parse_bools_skip(u: Seq<u8>, i: int, j: int, cur: bool)
    requires
        0 <= i <= j <= u.len(),
    ensures
        parse_bools(u, j, cur) == parse_bools(u.skip(i), j - i, cur),
    decreases u.len() - j,
{
    if j == u.len() {
    } else {
        crate::varint::lemma_parse_varint_skip(u, i, j);
        lemma_parse_varint_bounds(u, j);
        match parse_varint(u, j) {
            None => {},
            Some((n, k)) => {
                lemma_parse_bools_skip(u, i, k, !cur);
            },
        }
    }
}

/// Prepending one run to a stream prepends its booleans.
pub proof fn lemma_parse_bools_run(n: u64, t: Seq<u8>, cur: bool)
    ensures
        parse_bools(varint(n) + t, 0, cur) == (match parse_bools(t, 0, !cur) {
            None => None::<Seq<bool>>,
            Some(q) => Some(Seq::new(n as nat, |k: int| cur) + q),
        }),
{
    let s = varint(n) + t;
    assert forall|k: int| 0 <= k < varint(n).len() implies s[0 + k] == varint(n)[k] by {}
    lemma_varint_round_trip(s, 0, n);
    lemma_parse_bools_skip(s, varint(n).len() as int, varint(n).len() as int, !cur);
    assert(s.skip(varint(n).len() as int) =~= t);
}

/// The leading run: how many consecutive `v` values open the stream, at
/// most `budget`.
pub open spec fn run_len_b(s: Seq<bool>, v: bool, budget: int) -> int
    decreases s.len(),
{
    if budget <= 0 || s.len() == 0 || s[0] != v {
        0
    } else {
        1 + run_len_b(s.drop_first(), v, budget - 1)
    }
}

/// A leading run is never longer than the stream or the budget.
pub proof fn lemma_run_len_b_bounds(s: Seq<bool>, v: bool, budget: int)
    ensures
        0 <= run_len_b(s, v, budget) <= s.len(),
        budget >= 0 ==> run_len_b(s, v, budget) <= budget,
    decreases s.len(),
{
    if !(budget <= 0 || s.len() == 0 || s[0] != v) {
        lemma_run_len_b_bounds(s.drop_first(), v, budget - 1);
    }
}

/// The canonical run-length bytes of a boolean stream, next run counting
/// `cur` values: one varint per maximal run (capped at the largest
/// encodable count), polarities alternating, a zero-length run where the
/// stream opens on the other value.
pub open spec fn bool_runs(bs: Seq<bool>, cur: bool) -> Seq<u8>
    decreases bs.len(), (if bs.len() > 0 && bs[0] != cur { 1int } else { 0int }),
    via bool_runs_dec
{
    if bs.len() == 0 {
        Seq::empty()
    } else {
        let n = run_len_b(bs, cur, u64::MAX as int);
        varint(n as u64) + bool_runs(bs.skip(n), !cur)
    }
}

#[via_fn]
proof fn bool_runs_dec(bs: Seq<bool>, cur: bool) {
    lemma_run_len_b_bounds(bs, cur, u64::MAX as int);
    if bs.len() > 0 && bs[0] == cur {
        lemma_run_len_b_bounds(bs.drop_first(), cur, u64::MAX as int - 1);
        assert(run_len_b(bs, cur, u64::MAX as int) >= 1);
    }
}

/// The canonical byte form of a whole boolean stream: runs from the
/// front, the first counting `false` values.
pub open spec fn bool_rle_bytes(bs: Seq<bool>) -> Seq<u8> {
    bool_runs(bs, false)
}

/// A uniform block that the tail cannot extend (it differs, ends the
/// stream, or the block fills the budget) is the whole leading run.
proof fn lemma_run_len_b_prepend(n: u64, v: bool, t: Seq<bool>, budget: int)
    requires
        n <= budget,
        n == budget || t.len() == 0 || t[0] != v,
    ensures
        run_len_b(Seq::new(n as nat, |k: int| v) + t, v, budget) == n,
    decreases n,
{
    let s = Seq::new(n as nat, |k: int| v) + t;
    if n == 0 {
        assert(s =~= t);
    } else {
        assert(s[0] == v);
        assert(s.drop_first() =~= Seq::new((n - 1) as nat, |k: int| v) + t);
        lemma_run_len_b_prepend((n - 1) as u64, v, t, budget - 1);
    }
}

/// A stream that opens on the wrong value opens with a zero-length run.
proof fn lemma_bool_runs_zero(t: Seq<bool>, c: bool)
    requires
        t.len() > 0,
        t[0] != c,
    ensures
        bool_runs(t, c) == varint(0) + bool_runs(t, !c),
{
    assert(run_len_b(t, c, u64::MAX as int) == 0);
    assert(t.skip(0) =~= t);
}

/// Prepending one closed run to a stream prepends its canonical bytes.
proof fn lemma_bool_runs_prepend(n: u64, v: bool, t: Seq<bool>)
    requires
        n == u64::MAX || t.len() == 0 || t[0] != v,
        n > 0 || (t.len() > 0 && t[0] != v),
    ensures
        bool_runs(Seq::new(n as nat, |k: int| v) + t, v) == varint(n) + bool_runs(t, !v),
{
    let s = Seq::new(n as nat, |k: int| v) + t;
    lemma_run_len_b_prepend(n, v, t, u64::MAX as int);
    assert(s.skip(n as int) =~= t);
    if n == 0 {
        assert(s =~= t);
        assert(s.skip(0) =~= t);
    }
}

/// The run-length encoder for booleans.
pub struct BoolRleEncoder {
    pub buffer: Vec<u8>,
    pub last_value: bool,
    pub repeat: u64,
    pub done: Ghost<Seq<bool>>,
}

impl BoolRleEncoder {
    /// The booleans pushed so far.
    pub open spec fn view(self) -> Seq<bool> {
        self.done@ + Seq::new(self.repeat as nat, |k: int| self.last_value)
    }

    /// The written bytes parse as a prefix: any byte continuation parses
    /// from the current parity, after the booleans flushed so far.
    pub open spec fn parse_inv(self) -> bool {
        forall|t: Seq<u8>|
            #[trigger] parse_bools(self.buffer@ + t, 0, false) == (match parse_bools(
                t,
                0,
                self.last_value,
            ) {
                None => None::<Seq<bool>>,
                Some(q) => Some(self.done@ + q),
            })
    }

    /// The written bytes are the canonical run-lengths of the flushed
    /// prefix: a pushed continuation that keeps the current run open
    /// extends them canonically, and before the first flush nothing is
    /// written at all.
    pub open spec fn canon_inv(self) -> bool {
        &&& forall|t: Seq<bool>|
            t.len() > 0 && t[0] == self.last_value ==> #[trigger] bool_runs(self.done@ + t, false)
                == self.buffer@ + bool_runs(t, self.last_value)
        &&& self.repeat == 0 ==> self.buffer@ == Seq::<u8>::empty() && self.done@ == Seq::<
            bool,
        >::empty() && self.last_value == false
    }

    pub open spec fn wf(self) -> bool {
        &&& self.parse_inv()
        &&& self.canon_inv()
    }

    /// A fresh encoder with nothing pushed.
    pub fn new() -> (r: Self)
        ensures
            r.wf(),
            r.view() == Seq::<bool>::empty(),
    {
        let r = BoolRleEncoder {
            buffer: Vec::new(),
            last_value: false,
            repeat: 0,
            done: Ghost(Seq::empty()),
        };
        proof {
            assert forall|t: Seq<u8>|
                #[trigger] parse_bools(r.buffer@ + t, 0, false) == (match parse_bools(
                    t,
                    0,
                    r.last_value,
                ) {
                    None => None::<Seq<bool>>,
                    Some(q) => Some(r.done@ + q),
                }) by {
                assert(r.buffer@ + t =~= t);
                if let Some(q) = parse_bools(t, 0, false) {
                    assert(r.done@ + q =~= q);
                }
            }
            assert forall|t: Seq<bool>| t.len() > 0 && t[0] == r.last_value implies #[trigger] bool_runs(
                r.done@ + t,
                false,
            ) == r.buffer@ + bool_runs(t, r.last_value) by {
                assert(r.done@ + t =~= t);
                assert(r.buffer@ + bool_runs(t, false) =~= bool_runs(t, false));
            }
            assert(r.view() =~= Seq::<bool>::empty());
        }
        r
    }

    /// Write out the pending run, possibly empty, and flip the parity.
    fn flush(&mut self)
        requires
            old(self).parse_inv(),
        ensures
            final(self).parse_inv(),
            final(self).view() == old(self).view(),
            final(self).repeat == 0,
            final(self).done@ == old(self).view(),
            final(self).last_value == !old(self).last_value,
            final(self).buffer@ == old(self).buffer@ + varint(old(self).repeat),
    {
        let ghost buf0 = self.buffer@;
        let ghost done0 = self.done@;
        let ghost lv0 = self.last_value;
        let ghost rep0 = self.repeat;
        push_varint(&mut self.buffer, self.repeat);
        self.done = Ghost(done0 + Seq::new(rep0 as nat, |k: int| lv0));
        self.last_value = !self.last_value;
        self.repeat = 0;
        proof {
            assert forall|t: Seq<u8>|
                #[trigger] parse_bools(self.buffer@ + t, 0, false) == (match parse_bools(
                    t,
                    0,
                    self.last_value,
                ) {
                    None => None::<Seq<bool>>,
                    Some(q) => Some(self.done@ + q),
                }) by {
                assert(self.buffer@ + t =~= buf0 + (varint(rep0) + t));
                lemma_parse_bools_run(rep0, t, lv0);
                match parse_bools(t, 0, !lv0) {
                    None => {},
                    Some(q) => {
                        assert(done0 + (Seq::new(rep0 as nat, |k: int| lv0) + q) =~= self.done@
                            + q);
                    },
                }
            }
            assert(self.view() =~= done0 + Seq::new(rep0 as nat, |k: int| lv0));
        }
    }

    /// Push one boolean.
    pub fn push(&mut self, value: bool)
        requires
            old(self).wf(),
        ensures
            final(self).wf(),
            final(self).view() == old(self).view().push(value),
    {
        if value == self.last_value && self.repeat < u64::MAX {
            self.repeat = self.repeat + 1;
            proof {
                assert(self.view() =~= old(self).view().push(value));
            }
        } else if value == self.last_value {
            // The run is full: close it, write an empty run of the
            // opposite value, and start a fresh run of `value`.
            self.flush();
            self.flush();
            self.repeat = 1;
            proof {
                let pre = *old(self);
                let mx = Seq::new(u64::MAX as nat, |k: int| pre.last_value);
                assert forall|t: Seq<bool>|
                    t.len() > 0 && t[0] == self.last_value implies #[trigger] bool_runs(
                    self.done@ + t,
                    false,
                ) == self.buffer@ + bool_runs(t, self.last_value) by {
                    assert(pre.done@ + (mx + t) =~= self.done@ + t);
                    assert((mx + t)[0] == pre.last_value && (mx + t).len() > 0);
                    assert(bool_runs(pre.done@ + (mx + t), false) == pre.buffer@ + bool_runs(
                        mx + t,
                        pre.last_value,
                    ));
                    lemma_bool_runs_prepend(u64::MAX, pre.last_value, t);
                    lemma_bool_runs_zero(t, !pre.last_value);
                    assert(self.buffer@ =~= pre.buffer@ + varint(u64::MAX) + varint(0));
                    assert(pre.buffer@ + (varint(u64::MAX) + (varint(0) + bool_runs(
                        t,
                        pre.last_value,
                    ))) =~= self.buffer@ + bool_runs(t, pre.last_value));
                }
                assert(self.view() =~= old(self).view().push(value));
            }
        } else {
            self.flush();
            self.last_value = value;
            self.repeat = 1;
            proof {
                let pre = *old(self);
                let run = Seq::new(pre.repeat as nat, |k: int| pre.last_value);
                assert forall|t: Seq<bool>|
                    t.len() > 0 && t[0] == self.last_value implies #[trigger] bool_runs(
                    self.done@ + t,
                    false,
                ) == self.buffer@ + bool_runs(t, self.last_value) by {
                    if pre.repeat == 0 {
                        // Nothing was ever pushed: the bytes open with the
                        // canonical zero-length `false` run.
                        assert(pre.done@ == Seq::<bool>::empty() && pre.buffer@ == Seq::<
                            u8,
                        >::empty() && pre.last_value == false);
                        assert(self.done@ + t =~= t);
                        lemma_bool_runs_zero(t, false);
                        assert(self.buffer@ =~= varint(0));
                        assert(varint(0) + bool_runs(t, true) =~= self.buffer@ + bool_runs(
                            t,
                            self.last_value,
                        ));
                    } else {
                        assert(pre.done@ + (run + t) =~= self.done@ + t);
                        assert((run + t)[0] == pre.last_value && (run + t).len() > 0);
                        assert(bool_runs(pre.done@ + (run + t), false) == pre.buffer@ + bool_runs(
                            run + t,
                            pre.last_value,
                        ));
                        lemma_bool_runs_prepend(pre.repeat, pre.last_value, t);
                        assert(self.buffer@ =~= pre.buffer@ + varint(pre.repeat));
                        assert(pre.buffer@ + (varint(pre.repeat) + bool_runs(
                            t,
                            !pre.last_value,
                        )) =~= self.buffer@ + bool_runs(t, self.last_value));
                    }
                }
                assert(self.view() =~= old(self).view().push(value));
            }
        }
    }

    /// Close the stream: the returned bytes are exactly the canonical
    /// run-length form of what was pushed, and decode back to it. They are
    /// empty exactly when nothing was pushed.
    pub fn finish(self) -> (r: Vec<u8>)
        requires
            self.wf(),
        ensures
            parse_bools(r@, 0, false) == Some(self.view()),
            r@ == bool_rle_bytes(self.view()),
            r@.len() == 0 <==> self.view().len() == 0,
    {
        let mut me = self;
        let ghost pre = me;
        if me.repeat > 0 {
            me.flush();
            proof {
                let run = Seq::new(pre.repeat as nat, |k: int| pre.last_value);
                assert(pre.done@ + run =~= pre.view());
                assert(run.len() > 0 && run[0] == pre.last_value);
                assert(bool_runs(pre.done@ + run, false) == pre.buffer@ + bool_runs(
                    run,
                    pre.last_value,
                ));
                lemma_bool_runs_prepend(pre.repeat, pre.last_value, Seq::<bool>::empty());
                assert(run =~= Seq::new(pre.repeat as nat, |k: int| pre.last_value) + Seq::<
                    bool,
                >::empty());
                assert(bool_runs(Seq::<bool>::empty(), !pre.last_value) =~= Seq::<u8>::empty());
                assert(varint(pre.repeat) + Seq::<u8>::empty() =~= varint(pre.repeat));
                assert(me.buffer@ == pre.buffer@ + varint(pre.repeat));
                assert(me.buffer@ == bool_rle_bytes(pre.view()));
            }
        } else {
            proof {
                assert(pre.view() =~= Seq::<bool>::empty());
                assert(me.buffer@ == bool_rle_bytes(pre.view()));
            }
        }
        proof {
            assert(me.buffer@ + Seq::<u8>::empty() =~= me.buffer@);
            assert(parse_bools(Seq::<u8>::empty(), 0, me.last_value) == Some(Seq::<bool>::empty()));
            assert(me.done@ + Seq::<bool>::empty() =~= me.done@);
            if pre.view().len() > 0 {
                lemma_varint_nonempty(run_len_b(pre.view(), false, u64::MAX as int) as u64);
            }
        }
        me.buffer
    }
}

/// Read one whole run-length boolean stream.
pub(crate) fn bool_decode_all(bytes: &[u8]) -> (r: Option<Vec<bool>>)
    ensures
        match parse_bools(bytes@, 0, false) {
            Some(v) => r matches Some(x) && x@ == v,
            None => r is None,
        },
{
    let mut out: Vec<bool> = Vec::new();
    let mut pos: usize = 0;
    let mut cur = false;
    proof {
        match parse_bools(bytes@, 0, false) {
            Some(rest) => {
                assert(out@ + rest =~= rest);
            },
            None => {},
        }
    }
    while pos < bytes.len()
        invariant
            pos <= bytes@.len(),
            match parse_bools(bytes@, pos as int, cur) {
                Some(rest) => parse_bools(bytes@, 0, false) == Some(out@ + rest),
                None => parse_bools(bytes@, 0, false) is None,
            },
        decreases bytes@.len() - pos,
    {
        let ghost pre_pos = pos as int;
        proof {
            lemma_parse_varint_bounds(bytes@, pre_pos);
        }
        let n = match read_varint(bytes, &mut pos) {
            None => {
                return None;
            },
            Some(c) => c,
        };
        let ghost out_base = out@;
        let mut k: u64 = 0;
        while k < n
            invariant
                k <= n,
                out@ == out_base + Seq::new(k as nat, |q: int| cur),
            decreases n - k,
        {
            out.push(cur);
            proof {
                assert(out@ =~= out_base + Seq::new(k as nat + 1, |q: int| cur));
            }
            k = k + 1;
        }
        proof {
            match parse_bools(bytes@, pos as int, !cur) {
                Some(rest) => {
                    assert(out_base + (Seq::new(n as nat, |q: int| cur) + rest) =~= out@ + rest);
                },
                None => {},
            }
        }
        cur = !cur;
    }
    proof {
        assert(parse_bools(bytes@, pos as int, cur) == Some(Seq::<bool>::empty()));
        assert(out@ + Seq::<bool>::empty() =~= out@);
    }
    Some(out)
}

/// The run-length decoder for booleans.
pub struct BoolRleDecoder {
    pub buffer: Vec<u8>,
    pub pos: usize,
    pub repeat: u64,
    pub value: bool,
}

impl BoolRleDecoder {
    /// What is still to be yielded, `None` when the rest is malformed.
    pub open spec fn remaining(self) -> Option<Seq<bool>> {
        match parse_bools(self.buffer@, self.pos as int, !self.value) {
            None => None,
            Some(rest) => Some(Seq::new(self.repeat as nat, |k: int| self.value) + rest),
        }
    }

    pub open spec fn wf(self) -> bool {
        self.pos <= self.buffer@.len()
    }

    /// A decoder over the given bytes.
    pub fn new(buffer: &[u8]) -> (r: Self)
        ensures
            r.wf(),
            r.remaining() == parse_bools(buffer@, 0, false),
    {
        let r = BoolRleDecoder {
            buffer: vstd::slice::slice_to_vec(buffer),
            pos: 0,
            repeat: 0,
            value: true,
        };
        proof {
            match parse_bools(buffer@, 0, false) {
                None => {},
                Some(rest) => {
                    assert(Seq::new(0nat, |k: int| true) + rest =~= rest);
                },
            }
        }
        r
    }

    /// The next boolean; `None` when the stream is exhausted or malformed.
    pub fn next(&mut self) -> (r: Option<bool>)
        requires
            old(self).wf(),
        ensures
            final(self).wf(),
            match old(self).remaining() {
                Some(rem) => if rem.len() == 0 {
                    r is None
                } else {
                    r == Some(rem[0]) && final(self).remaining() == Some(rem.drop_first())
                },
                None => true,
            },
    {
        while self.repeat == 0
            invariant
                self.wf(),
                self.remaining() == old(self).remaining(),
            decreases self.buffer@.len() - self.pos,
        {
            if self.pos >= self.buffer.len() {
                proof {
                    assert(parse_bools(self.buffer@, self.pos as int, !self.value) == Some(
                        Seq::<bool>::empty(),
                    ));
                    assert(old(self).remaining() matches Some(rem) && rem.len() == 0);
                }
                return None;
            }
            let ghost pre = *self;
            proof {
                lemma_parse_varint_bounds(self.buffer@, self.pos as int);
            }
            match read_varint(self.buffer.as_slice(), &mut self.pos) {
                None => {
                    proof {
                        assert(pre.remaining() is None);
                    }
                    return None;
                },
                Some(n) => {
                    self.repeat = n;
                    self.value = !self.value;
                    proof {
                        match parse_bools(pre.buffer@, pre.pos as int, !pre.value) {
                            None => {},
                            Some(rest) => {
                                assert(Seq::new(0nat, |k: int| pre.value) + rest =~= rest);
                                match parse_bools(self.buffer@, self.pos as int, !self.value) {
                                    None => {},
                                    Some(r2) => {
                                        assert(pre.remaining() == self.remaining());
                                    },
                                }
                            },
                        }
                    }
                },
            }
        }
        let ghost pre = *self;
        self.repeat = self.repeat - 1;
        proof {
            match pre.remaining() {
                None => {},
                Some(rem) => {
                    assert(rem[0] == pre.value);
                    assert(self.remaining() matches Some(r2) && r2 =~= rem.drop_first());
                },
            }
        }
        Some(self.value)
    }
}

} // verus!
