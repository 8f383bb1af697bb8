//! Run-length coding of signed integer streams: each run is a repeat
//! count and a per-element delta, both varints (the delta zigzagged), and
//! values are rebuilt by wrapping addition from a running sum starting at
//! zero.

use vstd::prelude::*;
use vstd::wrapping::i64_specs;

use crate::varint::{from_zigzag, lemma_parse_varint_bounds, lemma_parse_varint_skip,
    lemma_varint_nonempty, lemma_varint_round_trip, parse_varint, push_varint, read_varint,
    to_zigzag, unzigzag, varint, zigzag};

verus! {

/// The values one run emits, continuing from `prev`.
pub open spec fn run_values(prev: i64, delta: i64, cnt: nat) -> Seq<i64>
    decreases cnt,
{
    if cnt == 0 {
        Seq::empty()
    } else {
        seq![i64_specs::wrapping_add(prev, delta)] + run_values(
            i64_specs::wrapping_add(prev, delta),
            delta,
            (cnt - 1) as nat,
        )
    }
}

/// The running sum after one run.
pub open spec fn run_end(prev: i64, delta: i64, cnt: nat) -> i64
    decreases cnt,
{
    if cnt == 0 {
        prev
    } else {
        run_end(i64_specs::wrapping_add(prev, delta), delta, (cnt - 1) as nat)
    }
}

/// A run one longer emits one more value, the run's end.
pub proof fn lemma_run_snoc(prev: i64, delta: i64, cnt: nat)
    ensures
        run_values(prev, delta, cnt + 1) == run_values(prev, delta, cnt).push(
            i64_specs::wrapping_add(run_end(prev, delta, cnt), delta),
        ),
        run_end(prev, delta, cnt + 1) == i64_specs::wrapping_add(run_end(prev, delta, cnt), delta),
    decreases cnt,
{
    if cnt == 0 {
        let p2 = i64_specs::wrapping_add(prev, delta);
        assert(run_values(p2, delta, 0nat) =~= Seq::<i64>::empty());
        assert(run_end(p2, delta, 0nat) == p2);
        assert(run_values(prev, delta, 1) =~= run_values(prev, delta, 0).push(p2));
        assert(run_end(prev, delta, 1) == p2);
    } else {
        let p2 = i64_specs::wrapping_add(prev, delta);
        lemma_run_snoc(p2, delta, (cnt - 1) as nat);
        assert(run_values(prev, delta, cnt + 1) =~= run_values(prev, delta, cnt).push(
            i64_specs::wrapping_add(run_end(prev, delta, cnt), delta),
        ));
    }
}

/// Parse a delta-run stream from position `i` with running sum `prev`.
pub open spec fn parse_deltas(s: Seq<u8>, i: int, prev: i64) -> Option<Seq<i64>>
    decreases s.len() - i,
    when 0 <= i
    via parse_deltas_dec
{
    if i == s.len() {
        Some(Seq::empty())
    } else {
        match parse_varint(s, i) {
            None => None,
            Some((cnt, j)) => match parse_varint(s, j) {
                None => None,
                Some((dz, k)) => {
                    let delta = unzigzag(dz);
                    match parse_deltas(s, k, run_end(prev, delta, cnt as nat)) {
                        None => None,
                        Some(rest) => Some(run_values(prev, delta, cnt as nat) + rest),
                    }
                },
            },
        }
    }
}

#[via_fn]
proof fn parse_deltas_dec(s: Seq<u8>, i: int, prev: i64) {
    lemma_parse_varint_bounds(s, i);
    if 0 <= i < s.len() {
        match parse_varint(s, i) {
            None => {},
            Some((cnt, j)) => {
                lemma_parse_varint_bounds(s, j);
            },
        }
    }
}

/// Parsing runs is invariant under dropping a consumed prefix.
pub proof fn lemma_parse_deltas_skip(u: Seq<u8>, i: int, j: int, prev: i64)
    requires
        0 <= i <= j <= u.len(),
    ensures
        parse_deltas(u, j, prev) == parse_deltas(u.skip(i), j - i, prev),
    decreases u.len() - j,
{
    if j == u.len() {
    } else {
        lemma_parse_varint_skip(u, i, j);
        lemma_parse_varint_bounds(u, j);
        match parse_varint(u, j) {
            None => {},
            Some((cnt, k)) => {
                lemma_parse_varint_skip(u, i, k);
                lemma_parse_varint_bounds(u, k);
                match parse_varint(u, k) {
                    None => {},
                    Some((dz, l)) => {
                        lemma_parse_deltas_skip(u, i, l, run_end(prev, unzigzag(dz), cnt as nat));
                    },
                }
            },
        }
    }
}

/// Prepending one run to a stream prepends its values.
pub proof fn lemma_parse_deltas_run(cnt: u64, dz: u64, t: Seq<u8>, prev: i64)
    ensures
        parse_deltas(varint(cnt) + varint(dz) + t, 0, prev) == (match parse_deltas(
            t,
            0,
            run_end(prev, unzigzag(dz), cnt as nat),
        ) {
            None => None::<Seq<i64>>,
            Some(q) => Some(run_values(prev, unzigzag(dz), cnt as nat) + q),
        }),
{
    let s = varint(cnt) + varint(dz) + t;
    let l1 = varint(cnt).len() as int;
    let l2 = varint(dz).len() as int;
    assert forall|k: int| 0 <= k < l1 implies s[0 + k] == varint(cnt)[k] by {}
    lemma_varint_round_trip(s, 0, cnt);
    assert forall|k: int| 0 <= k < l2 implies s[l1 + k] == varint(dz)[k] by {
        assert((varint(cnt) + varint(dz))[l1 + k] == varint(dz)[k]);
    }
    lemma_varint_round_trip(s, l1, dz);
    lemma_parse_deltas_skip(s, l1 + l2, l1 + l2, run_end(prev, unzigzag(dz), cnt as nat));
    assert(s.skip(l1 + l2) =~= t);
}

/// The per-element steps of a value stream: each value minus its
/// predecessor, wrapping, the first minus zero.
pub open spec fn deltas_of(xs: Seq<i64>) -> Seq<i64> {
    Seq::new(
        xs.len(),
        |i: int|
            i64_specs::wrapping_sub(
                xs[i],
                if i == 0 {
                    0i64
                } else {
                    xs[i - 1]
                },
            ),
    )
}

/// The leading run: how many consecutive copies of `d` open the delta
/// stream, at most `budget`.
pub open spec fn delta_run_len(ds: Seq<i64>, d: i64, budget: int) -> int
    decreases ds.len(),
{
    if budget <= 0 || ds.len() == 0 || ds[0] != d {
        0
    } else {
        1 + delta_run_len(ds.drop_first(), d, budget - 1)
    }
}

/// A leading run is never longer than the stream or the budget.
pub proof fn lemma_delta_run_len_bounds(ds: Seq<i64>, d: i64, budget: int)
    ensures
        0 <= delta_run_len(ds, d, budget) <= ds.len(),
        budget >= 0 ==> delta_run_len(ds, d, budget) <= budget,
    decreases ds.len(),
{
    if !(budget <= 0 || ds.len() == 0 || ds[0] != d) {
        lemma_delta_run_len_bounds(ds.drop_first(), d, budget - 1);
    }
}

/// The canonical run-length bytes of a delta stream: one (count, zigzag
/// delta) varint pair per maximal run of equal consecutive deltas, in
/// order, counts capped at the largest encodable value.
pub open spec fn delta_runs(ds: Seq<i64>) -> Seq<u8>
    decreases ds.len(),
    via delta_runs_dec
{
    if ds.len() == 0 {
        Seq::empty()
    } else {
        let n = delta_run_len(ds, ds[0], u64::MAX as int);
        varint(n as u64) + varint(zigzag(ds[0])) + delta_runs(ds.skip(n))
    }
}

#[via_fn]
proof fn delta_runs_dec(ds: Seq<i64>) {
    lemma_delta_run_len_bounds(ds, ds[0], u64::MAX as int);
    if ds.len() > 0 {
        lemma_delta_run_len_bounds(ds.drop_first(), ds[0], u64::MAX as int - 1);
        assert(delta_run_len(ds, ds[0], u64::MAX as int) >= 1);
    }
}

/// The canonical byte form of a whole value stream: the runs of its
/// delta stream.
pub open spec fn delta_rle_bytes(xs: Seq<i64>) -> Seq<u8> {
    delta_runs(deltas_of(xs))
}

/// A uniform block that the tail cannot extend (it differs, ends the
/// stream, or the block fills the budget) is the whole leading run.
proof fn lemma_delta_run_len_prepend(n: u64, d: i64, t: Seq<i64>, budget: int)
    requires
        n <= budget,
        n == budget || t.len() == 0 || t[0] != d,
    ensures
        delta_run_len(Seq::new(n as nat, |k: int| d) + t, d, budget) == n,
    decreases n,
{
    let s = Seq::new(n as nat, |k: int| d) + t;
    if n == 0 {
        assert(s =~= t);
    } else {
        assert(s[0] == d);
        assert(s.drop_first() =~= Seq::new((n - 1) as nat, |k: int| d) + t);
        lemma_delta_run_len_prepend((n - 1) as u64, d, t, budget - 1);
    }
}

/// Prepending one closed run to a delta stream prepends its canonical
/// byte pair.
proof fn lemma_delta_runs_prepend(n: u64, d: i64, t: Seq<i64>)
    requires
        n > 0,
        n == u64::MAX || t.len() == 0 || t[0] != d,
    ensures
        delta_runs(Seq::new(n as nat, |k: int| d) + t) == varint(n) + varint(zigzag(d))
            + delta_runs(t),
{
    let s = Seq::new(n as nat, |k: int| d) + t;
    lemma_delta_run_len_prepend(n, d, t, u64::MAX as int);
    assert(s[0] == d);
    assert(s.skip(n as int) =~= t);
    assert(varint(n) + varint(zigzag(d)) + delta_runs(t) =~= varint(n) + (varint(zigzag(d))
        + delta_runs(t)));
}

/// The last value of a non-empty run is its running sum.
proof fn lemma_run_values_last(prev: i64, delta: i64, cnt: nat)
    requires
        cnt >= 1,
    ensures
        run_values(prev, delta, cnt).len() == cnt,
        run_values(prev, delta, cnt).last() == run_end(prev, delta, cnt),
    decreases cnt,
{
    let x = i64_specs::wrapping_add(prev, delta);
    if cnt == 1 {
        assert(run_values(prev, delta, 1nat) =~= seq![x]);
        assert(run_end(prev, delta, 1nat) == run_end(x, delta, 0nat));
    } else {
        lemma_run_values_last(x, delta, (cnt - 1) as nat);
        assert(run_values(prev, delta, cnt) == seq![x] + run_values(x, delta, (cnt - 1) as nat));
        assert(run_values(prev, delta, cnt).last() == run_values(x, delta, (cnt - 1) as nat).last());
        assert(run_end(prev, delta, cnt) == run_end(x, delta, (cnt - 1) as nat));
    }
}

/// Appending one value appends one delta.
proof fn lemma_deltas_of_push(xs: Seq<i64>, x: i64)
    ensures
        deltas_of(xs.push(x)) == deltas_of(xs).push(
            i64_specs::wrapping_sub(
                x,
                if xs.len() == 0 {
                    0i64
                } else {
                    xs.last()
                },
            ),
        ),
{
    assert(deltas_of(xs.push(x)) =~= deltas_of(xs).push(
        i64_specs::wrapping_sub(
            x,
            if xs.len() == 0 {
                0i64
            } else {
                xs.last()
            },
        ),
    ));
}

/// A run appended to a stream it continues from adds a block of equal
/// deltas.
proof fn lemma_deltas_of_run(a: Seq<i64>, s: i64, d: i64, n: nat)
    requires
        s == (if a.len() == 0 {
            0i64
        } else {
            a.last()
        }),
    ensures
        deltas_of(a + run_values(s, d, n)) == deltas_of(a) + Seq::new(n, |k: int| d),
    decreases n,
{
    if n == 0 {
        assert(a + run_values(s, d, 0) =~= a);
        assert(deltas_of(a) + Seq::new(0nat, |k: int| d) =~= deltas_of(a));
    } else {
        lemma_deltas_of_run(a, s, d, (n - 1) as nat);
        lemma_run_snoc(s, d, (n - 1) as nat);
        let x = i64_specs::wrapping_add(run_end(s, d, (n - 1) as nat), d);
        assert(a + run_values(s, d, n) =~= (a + run_values(s, d, (n - 1) as nat)).push(x));
        let b = a + run_values(s, d, (n - 1) as nat);
        if n == 1 {
            assert(b =~= a);
        } else {
            lemma_run_values_last(s, d, (n - 1) as nat);
            assert(b.last() == run_end(s, d, (n - 1) as nat));
        }
        lemma_deltas_of_push(b, x);
        assert(i64_specs::wrapping_sub(x, run_end(s, d, (n - 1) as nat)) == d);
        assert(deltas_of(a) + Seq::new((n - 1) as nat, |k: int| d) + seq![d] =~= deltas_of(a)
            + Seq::new(n, |k: int| d));
        assert(deltas_of(b).push(d) =~= deltas_of(a) + Seq::new((n - 1) as nat, |k: int| d)
            + seq![d]);
    }
}

/// The run-length encoder for signed integers.
pub struct DeltaRleEncoder {
    pub buffer: Vec<u8>,
    pub last_value: i64,
    pub last_delta: i64,
    pub repeat: u64,
    pub done: Ghost<Seq<i64>>,
    pub start: Ghost<i64>,
}

impl DeltaRleEncoder {
    /// The values pushed so far.
    pub open spec fn view(self) -> Seq<i64> {
        self.done@ + run_values(self.start@, self.last_delta, self.repeat as nat)
    }

    /// The written bytes parse as a prefix: any byte continuation parses
    /// from the current running sum, after the values flushed so far; the
    /// bookkeeping fields agree with it.
    pub open spec fn parse_inv(self) -> bool {
        &&& forall|t: Seq<u8>|
            #[trigger] parse_deltas(self.buffer@ + t, 0, 0) == (match parse_deltas(
                t,
                0,
                self.start@,
            ) {
                None => None::<Seq<i64>>,
                Some(q) => Some(self.done@ + q),
            })
        &&& self.last_value == run_end(self.start@, self.last_delta, self.repeat as nat)
        &&& self.start@ == (if self.done@.len() == 0 {
            0i64
        } else {
            self.done@.last()
        })
    }

    /// The written bytes are the canonical run pairs of the flushed
    /// prefix's deltas: a pushed continuation that keeps the current run
    /// open extends them canonically, and before the first flush nothing
    /// is written at all.
    pub open spec fn canon_inv(self) -> bool {
        &&& forall|dt: Seq<i64>|
            dt.len() > 0 && dt[0] == self.last_delta ==> #[trigger] delta_runs(
                deltas_of(self.done@) + dt,
            ) == self.buffer@ + delta_runs(dt)
        &&& self.repeat == 0 ==> self.buffer@ == Seq::<u8>::empty() && self.done@ == Seq::<
            i64,
        >::empty() && self.last_delta == 0 && self.last_value == 0 && self.start@ == 0
    }

    pub open spec fn wf(self) -> bool {
        &&& self.parse_inv()
        &&& self.canon_inv()
    }

    /// A fresh encoder with nothing pushed.
    pub fn new() -> (r: Self)
        ensures
            r.wf(),
            r.view() == Seq::<i64>::empty(),
    {
        let r = DeltaRleEncoder {
            buffer: Vec::new(),
            last_value: 0,
            last_delta: 0,
            repeat: 0,
            done: Ghost(Seq::empty()),
            start: Ghost(0i64),
        };
        proof {
            assert forall|t: Seq<u8>|
                #[trigger] parse_deltas(r.buffer@ + t, 0, 0) == (match parse_deltas(t, 0, 0i64) {
                    None => None::<Seq<i64>>,
                    Some(q) => Some(r.done@ + q),
                }) by {
                assert(r.buffer@ + t =~= t);
                if let Some(q) = parse_deltas(t, 0, 0i64) {
                    assert(r.done@ + q =~= q);
                }
            }
            assert forall|dt: Seq<i64>|
                dt.len() > 0 && dt[0] == r.last_delta implies #[trigger] delta_runs(
                deltas_of(r.done@) + dt,
            ) == r.buffer@ + delta_runs(dt) by {
                assert(deltas_of(r.done@) =~= Seq::<i64>::empty());
                assert(deltas_of(r.done@) + dt =~= dt);
                assert(r.buffer@ + delta_runs(dt) =~= delta_runs(dt));
            }
            assert(r.view() =~= Seq::<i64>::empty());
        }
        r
    }

    /// Write out the pending run, if any.
    fn flush(&mut self)
        requires
            old(self).parse_inv(),
        ensures
            final(self).parse_inv(),
            final(self).view() == old(self).view(),
            final(self).repeat == 0,
            final(self).done@ == old(self).view(),
            final(self).last_value == old(self).last_value,
            final(self).last_delta == old(self).last_delta,
            final(self).start@ == old(self).last_value,
            final(self).buffer@ == (if old(self).repeat == 0 {
                old(self).buffer@
            } else {
                old(self).buffer@ + varint(old(self).repeat) + varint(
                    zigzag(old(self).last_delta),
                )
            }),
    {
        let ghost buf0 = self.buffer@;
        let ghost done0 = self.done@;
        let ghost start0 = self.start@;
        let ghost ld0 = self.last_delta;
        let ghost rep0 = self.repeat;
        if self.repeat == 0 {
            proof {
                assert(self.view() =~= self.done@);
            }
            return ;
        }
        push_varint(&mut self.buffer, self.repeat);
        push_varint(&mut self.buffer, to_zigzag(self.last_delta));
        self.done = Ghost(done0 + run_values(start0, ld0, rep0 as nat));
        self.start = Ghost(self.last_value);
        self.repeat = 0;
        proof {
            crate::varint::lemma_zigzag_round_trip(ld0);
            assert forall|t: Seq<u8>|
                #[trigger] parse_deltas(self.buffer@ + t, 0, 0) == (match parse_deltas(
                    t,
                    0,
                    self.start@,
                ) {
                    None => None::<Seq<i64>>,
                    Some(q) => Some(self.done@ + q),
                }) by {
                assert(self.buffer@ + t =~= buf0 + (varint(rep0) + varint(zigzag(ld0)) + t));
                lemma_parse_deltas_run(rep0, zigzag(ld0), t, start0);
                match parse_deltas(t, 0, self.start@) {
                    None => {},
                    Some(q) => {
                        assert(done0 + (run_values(start0, ld0, rep0 as nat) + q) =~= self.done@
                            + q);
                    },
                }
            }
            assert(self.view() =~= done0 + run_values(start0, ld0, rep0 as nat));
            lemma_run_values_last(start0, ld0, rep0 as nat);
            assert(self.buffer@ =~= buf0 + varint(rep0) + varint(zigzag(ld0)));
        }
    }

    /// Push one value.
    pub fn push(&mut self, value: i64)
        requires
            old(self).wf(),
        ensures
            final(self).wf(),
            final(self).view() == old(self).view().push(value),
    {
        let delta = value.wrapping_sub(self.last_value);
        if delta == self.last_delta && self.repeat < u64::MAX {
            proof {
                lemma_run_snoc(self.start@, self.last_delta, self.repeat as nat);
                assert(i64_specs::wrapping_add(
                    self.last_value,
                    i64_specs::wrapping_sub(value, self.last_value),
                ) == value);
            }
            self.repeat = self.repeat + 1;
            self.last_value = value;
            proof {
                assert(self.view() =~= old(self).view().push(value));
            }
        } else {
            self.flush();
            proof {
                lemma_run_snoc(self.last_value, delta, 0);
                assert(i64_specs::wrapping_add(
                    self.last_value,
                    i64_specs::wrapping_sub(value, self.last_value),
                ) == value);
            }
            self.last_delta = delta;
            self.repeat = 1;
            self.last_value = value;
            proof {
                assert(run_values(self.start@, delta, 1nat) =~= seq![value]);
                assert(self.view() =~= old(self).view().push(value));
                let pre = *old(self);
                assert forall|dt: Seq<i64>|
                    dt.len() > 0 && dt[0] == self.last_delta implies #[trigger] delta_runs(
                    deltas_of(self.done@) + dt,
                ) == self.buffer@ + delta_runs(dt) by {
                    if pre.repeat == 0 {
                        // Nothing was ever pushed, so nothing is written yet.
                        assert(deltas_of(self.done@) =~= Seq::<i64>::empty());
                        assert(deltas_of(self.done@) + dt =~= dt);
                        assert(self.buffer@ + delta_runs(dt) =~= delta_runs(dt));
                    } else {
                        let run = Seq::new(pre.repeat as nat, |k: int| pre.last_delta);
                        lemma_deltas_of_run(
                            pre.done@,
                            pre.start@,
                            pre.last_delta,
                            pre.repeat as nat,
                        );
                        assert(deltas_of(self.done@) == deltas_of(pre.done@) + run);
                        assert(deltas_of(pre.done@) + (run + dt) =~= deltas_of(self.done@) + dt);
                        assert((run + dt)[0] == pre.last_delta && (run + dt).len() > 0);
                        assert(delta_runs(deltas_of(pre.done@) + (run + dt)) == pre.buffer@
                            + delta_runs(run + dt));
                        lemma_delta_runs_prepend(pre.repeat, pre.last_delta, dt);
                        assert(self.buffer@ =~= pre.buffer@ + varint(pre.repeat) + varint(
                            zigzag(pre.last_delta),
                        ));
                        assert(pre.buffer@ + (varint(pre.repeat) + varint(zigzag(pre.last_delta))
                            + delta_runs(dt)) =~= self.buffer@ + delta_runs(dt));
                    }
                }
            }
        }
    }

    /// Close the stream: the returned bytes are exactly the canonical
    /// run pairs of what was pushed, and decode back to it. They are
    /// empty exactly when nothing was pushed.
    pub fn finish(self) -> (r: Vec<u8>)
        requires
            self.wf(),
        ensures
            parse_deltas(r@, 0, 0) == Some(self.view()),
            r@ == delta_rle_bytes(self.view()),
            r@.len() == 0 <==> self.view().len() == 0,
    {
        let mut me = self;
        let ghost pre = me;
        me.flush();
        proof {
            assert(me.buffer@ + Seq::<u8>::empty() =~= me.buffer@);
            assert(parse_deltas(Seq::<u8>::empty(), 0, me.start@) == Some(Seq::<i64>::empty()));
            assert(me.done@ + Seq::<i64>::empty() =~= me.done@);
            if pre.repeat > 0 {
                let run = Seq::new(pre.repeat as nat, |k: int| pre.last_delta);
                lemma_deltas_of_run(pre.done@, pre.start@, pre.last_delta, pre.repeat as nat);
                lemma_run_values_last(pre.start@, pre.last_delta, pre.repeat as nat);
                assert(deltas_of(pre.view()) == deltas_of(pre.done@) + run);
                assert(run.len() > 0 && run[0] == pre.last_delta);
                assert(delta_runs(deltas_of(pre.done@) + run) == pre.buffer@ + delta_runs(run));
                lemma_delta_runs_prepend(pre.repeat, pre.last_delta, Seq::<i64>::empty());
                assert(run =~= Seq::new(pre.repeat as nat, |k: int| pre.last_delta) + Seq::<
                    i64,
                >::empty());
                assert(delta_runs(Seq::<i64>::empty()) =~= Seq::<u8>::empty());
                assert(varint(pre.repeat) + varint(zigzag(pre.last_delta)) + Seq::<u8>::empty()
                    =~= varint(pre.repeat) + varint(zigzag(pre.last_delta)));
                assert(me.buffer@ =~= pre.buffer@ + (varint(pre.repeat) + varint(
                    zigzag(pre.last_delta),
                )));
                assert(me.buffer@ == delta_rle_bytes(pre.view()));
                assert(pre.view().len() > 0);
                lemma_varint_nonempty(
                    delta_run_len(deltas_of(pre.view()), deltas_of(pre.view())[0], u64::MAX as int)
                        as u64,
                );
            } else {
                assert(pre.view() =~= Seq::<i64>::empty());
                assert(deltas_of(pre.view()) =~= Seq::<i64>::empty());
                assert(me.buffer@ == delta_rle_bytes(pre.view()));
            }
        }
        me.buffer
    }
}

/// The run-length decoder for signed integers.
pub struct DeltaRleDecoder {
    pub buffer: Vec<u8>,
    pub pos: usize,
    pub value: i64,
    pub repeat: u64,
    pub last_delta: i64,
}

impl DeltaRleDecoder {
    /// What is still to be yielded, `None` when the rest is malformed.
    pub open spec fn remaining(self) -> Option<Seq<i64>> {
        match parse_deltas(
            self.buffer@,
            self.pos as int,
            run_end(self.value, self.last_delta, self.repeat as nat),
        ) {
            None => None,
            Some(rest) => Some(run_values(self.value, self.last_delta, self.repeat as nat) + rest),
        }
    }

    pub open spec fn wf(self) -> bool {
        self.pos <= self.buffer@.len()
    }

    /// A decoder over the given bytes.
    pub fn new(buffer: &[u8]) -> (r: Self)
        ensures
            r.wf(),
            r.remaining() == parse_deltas(buffer@, 0, 0),
    {
        let r = DeltaRleDecoder {
            buffer: vstd::slice::slice_to_vec(buffer),
            pos: 0,
            value: 0,
            repeat: 0,
            last_delta: 0,
        };
        proof {
            match parse_deltas(buffer@, 0, 0) {
                None => {},
                Some(rest) => {
                    assert(run_values(0, 0, 0nat) + rest =~= rest);
                },
            }
        }
        r
    }

    /// The next value; `None` when the stream is exhausted or malformed.
    pub fn next(&mut self) -> (r: Option<i64>)
        requires
            old(self).wf(),
        ensures
            final(self).wf(),
            match old(self).remaining() {
                Some(rem) => if rem.len() == 0 {
                    r is None
                } else {
                    r == Some(rem[0]) && final(self).remaining() == Some(rem.drop_first())
                },
                None => true,
            },
    {
        while self.repeat == 0
            invariant
                self.wf(),
                self.remaining() == old(self).remaining(),
            decreases self.buffer@.len() - self.pos,
        {
            if self.pos >= self.buffer.len() {
                proof {
                    assert(parse_deltas(
                        self.buffer@,
                        self.pos as int,
                        run_end(self.value, self.last_delta, 0nat),
                    ) == Some(Seq::<i64>::empty()));
                    assert(old(self).remaining() matches Some(rem) && rem.len() == 0);
                }
                return None;
            }
            let ghost pre = *self;
            proof {
                lemma_parse_varint_bounds(self.buffer@, self.pos as int);
            }
            let cnt_opt = read_varint(self.buffer.as_slice(), &mut self.pos);
            match cnt_opt {
                None => {
                    return None;
                },
                Some(cnt) => {
                    proof {
                        lemma_parse_varint_bounds(self.buffer@, self.pos as int);
                    }
                    let dz_opt = read_varint(self.buffer.as_slice(), &mut self.pos);
                    match dz_opt {
                        None => {
                            return None;
                        },
                        Some(dz) => {
                            self.repeat = cnt;
                            self.last_delta = from_zigzag(dz);
                            proof {
                                match parse_deltas(pre.buffer@, pre.pos as int, pre.value) {
                                    None => {},
                                    Some(rest) => {
                                        assert(pre.remaining() == self.remaining());
                                    },
                                }
                            }
                        },
                    }
                },
            }
        }
        let ghost pre = *self;
        proof {
            lemma_run_head(pre.value, pre.last_delta, pre.repeat as nat);
        }
        self.repeat = self.repeat - 1;
        self.value = self.value.wrapping_add(self.last_delta);
        proof {
            match pre.remaining() {
                None => {},
                Some(rem) => {
                    assert(self.remaining() matches Some(r2) && r2 =~= rem.drop_first());
                },
            }
        }
        Some(self.value)
    }
}

/// A non-empty run starts with one wrapping step and continues as a run
/// one shorter from there.
proof fn lemma_run_head(prev: i64, delta: i64, cnt: nat)
    requires
        cnt >= 1,
    ensures
        run_values(prev, delta, cnt)[0] == i64_specs::wrapping_add(prev, delta),
        run_values(prev, delta, cnt).drop_first() == run_values(
            i64_specs::wrapping_add(prev, delta),
            delta,
            (cnt - 1) as nat,
        ),
        run_end(prev, delta, cnt) == run_end(
            i64_specs::wrapping_add(prev, delta),
            delta,
            (cnt - 1) as nat,
        ),
{
    assert(run_values(prev, delta, cnt).drop_first() =~= run_values(
        i64_specs::wrapping_add(prev, delta),
        delta,
        (cnt - 1) as nat,
    ));
}

} // verus!
