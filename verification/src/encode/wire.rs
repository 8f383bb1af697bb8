//! The wire building blocks above varints: length-prefixed byte blocks,
//! UTF-8 strings, lists of unsigned values, and the tagged scalar form.

use vstd::prelude::*;
use vstd::utf8::{decode_utf8, encode_utf8, valid_utf8};

use crate::value::{Value, ValueModel};
use crate::varint::{lemma_parse_varint_bounds, lemma_varint_round_trip, parse_varint, push_varint,
    read_varint, to_zigzag, unzigzag, varint, zigzag};

verus! {

// --- byte blocks ---

/// The wire form of a byte block: its length, then its bytes.
pub open spec fn block_bytes(d: Seq<u8>) -> Seq<u8> {
    varint(d.len() as u64) + d
}

/// Parse one block at `i`: its bytes and the position after it.
pub open spec fn parse_block(s: Seq<u8>, i: int) -> Option<(Seq<u8>, int)> {
    match parse_varint(s, i) {
        None => None,
        Some((n, j)) => if j + n <= s.len() {
            Some((s.subrange(j, j + n as int), j + n as int))
        } else {
            None
        },
    }
}

/// A parsed block ends after where it starts, within the buffer.
pub proof fn lemma_parse_block_bounds(s: Seq<u8>, i: int)
    ensures
        parse_block(s, i) matches Some(p) ==> i < p.1 <= s.len(),
{
    lemma_parse_varint_bounds(s, i);
}

/// Round trip: the bytes of `block_bytes(d)` placed at `i` parse back to
/// `d`, whatever follows them.
pub proof fn lemma_block_round_trip(s: Seq<u8>, i: int, d: Seq<u8>)
    requires
        0 <= i,
        d.len() <= u64::MAX,
        i + block_bytes(d).len() <= s.len(),
        forall|k: int| 0 <= k < block_bytes(d).len() ==> s[i + k] == block_bytes(d)[k],
    ensures
        parse_block(s, i) == Some((d, i + block_bytes(d).len())),
{
    let n = d.len() as u64;
    assert forall|k: int| 0 <= k < varint(n).len() implies s[i + k] == varint(n)[k] by {
        assert(block_bytes(d)[k] == varint(n)[k]);
    }
    lemma_varint_round_trip(s, i, n);
    let j = i + varint(n).len();
    assert forall|k: int| 0 <= k < d.len() implies s[j + k] == d[k] by {
        assert(block_bytes(d)[varint(n).len() + k] == d[k]);
        assert(s[i + (varint(n).len() + k)] == block_bytes(d)[varint(n).len() + k]);
    }
    assert(s.subrange(j, j + n as int) =~= d);
}

/// Append one block.
pub fn push_block(out: &mut Vec<u8>, data: &Vec<u8>)
    ensures
        final(out)@ == old(out)@ + block_bytes(data@),
{
    push_varint(out, data.len() as u64);
    let mut k: usize = 0;
    let ghost base = out@;
    while k < data.len()
        invariant
            k <= data@.len(),
            out@ == base + data@.take(k as int),
        decreases data@.len() - k,
    {
        out.push(data[k]);
        proof {
            assert(base + data@.take(k as int + 1) =~= (base + data@.take(k as int)).push(
                data@[k as int],
            ));
        }
        k += 1;
    }
    proof {
        assert(data@.take(data@.len() as int) =~= data@);
        assert(final(out)@ =~= old(out)@ + block_bytes(data@));
    }
}

/// Read one block at `*pos`, advancing it.
pub fn read_block(s: &[u8], pos: &mut usize) -> (r: Option<Vec<u8>>)
    requires
        *old(pos) <= s@.len(),
    ensures
        *final(pos) <= s@.len(),
        match parse_block(s@, *old(pos) as int) {
            Some(p) => r matches Some(v) && v@ == p.0 && *final(pos) == p.1,
            None => r is None,
        },
{
    proof {
        lemma_parse_varint_bounds(s@, *pos as int);
    }
    match read_varint(s, pos) {
        None => None,
        Some(n) => {
            proof {
                assert(*pos <= s@.len());
            }
            if n > (s.len() - *pos) as u64 {
                return None;
            }
            let count = n as usize;
            let mut v: Vec<u8> = Vec::new();
            let start = *pos;
            let slen = s.len();
            let mut k: usize = 0;
            while k < count
                invariant
                    k <= count,
                    start + count <= slen,
                    slen == s@.len(),
                    v@ == s@.subrange(start as int, start as int + k as int),
                decreases count - k,
            {
                v.push(s[start + k]);
                proof {
                    assert(s@.subrange(start as int, start as int + k as int + 1) =~= s@.subrange(
                        start as int,
                        start as int + k as int,
                    ).push(s@[start as int + k as int]));
                }
                k += 1;
            }
            *pos = start + count;
            Some(v)
        },
    }
}

// --- strings ---

/// Relies on String::from_utf8: `Ok` exactly on valid UTF-8, preserving
/// the bytes.
#[verifier::external_body]
fn string_from_utf8(bytes: Vec<u8>) -> (r: Option<String>)
    ensures
        r matches Some(s) ==> s@ == decode_utf8(bytes@) && valid_utf8(bytes@),
        valid_utf8(bytes@) ==> r is Some,
{
    String::from_utf8(bytes).ok()
}

/// The wire form of a string: a block holding its UTF-8 bytes.
pub open spec fn str_bytes(sv: Seq<char>) -> Seq<u8> {
    block_bytes(encode_utf8(sv))
}

/// Parse one string at `i`.
pub open spec fn parse_str(s: Seq<u8>, i: int) -> Option<(Seq<char>, int)> {
    match parse_block(s, i) {
        None => None,
        Some((d, j)) => if valid_utf8(d) {
            Some((decode_utf8(d), j))
        } else {
            None
        },
    }
}

/// Round trip for one string.
pub proof fn lemma_str_round_trip(s: Seq<u8>, i: int, sv: Seq<char>)
    requires
        0 <= i,
        encode_utf8(sv).len() <= u64::MAX,
        i + str_bytes(sv).len() <= s.len(),
        forall|k: int| 0 <= k < str_bytes(sv).len() ==> s[i + k] == str_bytes(sv)[k],
    ensures
        parse_str(s, i) == Some((sv, i + str_bytes(sv).len())),
{
    lemma_block_round_trip(s, i, encode_utf8(sv));
    vstd::utf8::encode_utf8_valid_utf8(sv);
    vstd::utf8::encode_utf8_decode_utf8(sv);
}

/// Append one string.
pub fn push_string(out: &mut Vec<u8>, s: &str)
    ensures
        final(out)@ == old(out)@ + str_bytes(s@),
        encode_utf8(s@).len() <= usize::MAX,
{
    let bytes = s.as_bytes_vec();
    proof {
        assert(bytes@.len() == bytes.len());
    }
    push_block(out, &bytes);
}

/// Read one string at `*pos`, advancing it.
pub fn read_string(s: &[u8], pos: &mut usize) -> (r: Option<String>)
    requires
        *old(pos) <= s@.len(),
    ensures
        *final(pos) <= s@.len(),
        match parse_str(s@, *old(pos) as int) {
            Some(p) => r matches Some(v) && v@ == p.0 && *final(pos) == p.1,
            None => r is None,
        },
{
    match read_block(s, pos) {
        None => None,
        Some(bytes) => string_from_utf8(bytes),
    }
}

// --- lists ---

/// The wire form of a string list body: each string in order.
pub open spec fn strs_bytes(l: Seq<Seq<char>>) -> Seq<u8>
    decreases l.len(),
{
    if l.len() == 0 {
        Seq::empty()
    } else {
        str_bytes(l.first()) + strs_bytes(l.drop_first())
    }
}

/// Parse `count` strings at `i`.
pub open spec fn parse_strs(s: Seq<u8>, i: int, count: nat) -> Option<(Seq<Seq<char>>, int)>
    decreases count,
{
    if count == 0 {
        Some((Seq::empty(), i))
    } else {
        match parse_str(s, i) {
            None => None,
            Some((sv, j)) => match parse_strs(s, j, (count - 1) as nat) {
                None => None,
                Some((rest, k)) => Some((seq![sv] + rest, k)),
            },
        }
    }
}

/// Round trip for a string list body.
pub proof fn lemma_strs_round_trip(s: Seq<u8>, i: int, l: Seq<Seq<char>>)
    requires
        0 <= i,
        forall|k: int| 0 <= k < l.len() ==> encode_utf8(#[trigger] l[k]).len() <= u64::MAX,
        i + strs_bytes(l).len() <= s.len(),
        forall|k: int| 0 <= k < strs_bytes(l).len() ==> s[i + k] == strs_bytes(l)[k],
    ensures
        parse_strs(s, i, l.len() as nat) == Some((l, i + strs_bytes(l).len())),
    decreases l.len(),
{
    if l.len() > 0 {
        let head = l.first();
        let hb = str_bytes(head);
        assert forall|k: int| 0 <= k < hb.len() implies s[i + k] == hb[k] by {
            assert(strs_bytes(l)[k] == hb[k]);
        }
        assert(encode_utf8(l[0]).len() <= u64::MAX);
        lemma_str_round_trip(s, i, head);
        let j = i + hb.len();
        assert forall|k: int| 0 <= k < strs_bytes(l.drop_first()).len() implies s[j + k]
            == strs_bytes(l.drop_first())[k] by {
            assert(strs_bytes(l)[hb.len() + k] == strs_bytes(l.drop_first())[k]);
            assert(s[i + (hb.len() + k)] == strs_bytes(l)[hb.len() + k]);
        }
        assert forall|k: int| 0 <= k < l.drop_first().len() implies encode_utf8(
            #[trigger] l.drop_first()[k],
        ).len() <= u64::MAX by {
            assert(l.drop_first()[k] == l[k + 1]);
        }
        lemma_strs_round_trip(s, j, l.drop_first());
        assert(seq![head] + l.drop_first() =~= l);
    }
}

/// The wire form of an unsigned list body: each value as a varint.
pub open spec fn u64s_bytes(l: Seq<u64>) -> Seq<u8>
    decreases l.len(),
{
    if l.len() == 0 {
        Seq::empty()
    } else {
        varint(l.first()) + u64s_bytes(l.drop_first())
    }
}

/// Parse `count` varints at `i`.
pub open spec fn parse_u64s(s: Seq<u8>, i: int, count: nat) -> Option<(Seq<u64>, int)>
    decreases count,
{
    if count == 0 {
        Some((Seq::empty(), i))
    } else {
        match parse_varint(s, i) {
            None => None,
            Some((v, j)) => match parse_u64s(s, j, (count - 1) as nat) {
                None => None,
                Some((rest, k)) => Some((seq![v] + rest, k)),
            },
        }
    }
}

/// Round trip for an unsigned list body.
pub proof fn lemma_u64s_round_trip(s: Seq<u8>, i: int, l: Seq<u64>)
    requires
        0 <= i,
        i + u64s_bytes(l).len() <= s.len(),
        forall|k: int| 0 <= k < u64s_bytes(l).len() ==> s[i + k] == u64s_bytes(l)[k],
    ensures
        parse_u64s(s, i, l.len() as nat) == Some((l, i + u64s_bytes(l).len())),
    decreases l.len(),
{
    if l.len() > 0 {
        let head = l.first();
        let hb = varint(head);
        assert forall|k: int| 0 <= k < hb.len() implies s[i + k] == hb[k] by {
            assert(u64s_bytes(l)[k] == hb[k]);
        }
        lemma_varint_round_trip(s, i, head);
        let j = i + hb.len();
        assert forall|k: int| 0 <= k < u64s_bytes(l.drop_first()).len() implies s[j + k]
            == u64s_bytes(l.drop_first())[k] by {
            assert(u64s_bytes(l)[hb.len() + k] == u64s_bytes(l.drop_first())[k]);
            assert(s[i + (hb.len() + k)] == u64s_bytes(l)[hb.len() + k]);
        }
        lemma_u64s_round_trip(s, j, l.drop_first());
        assert(seq![head] + l.drop_first() =~= l);
    }
}

// --- exec list readers and writers ---

/// Append a counted string list.
pub fn push_str_list(out: &mut Vec<u8>, l: &Vec<String>)
    ensures
        final(out)@ == old(out)@ + varint(l@.len() as u64) + strs_bytes(views_of(l@)),
        forall|k: int|
            0 <= k < l@.len() ==> encode_utf8(#[trigger] views_of(l@)[k]).len() <= usize::MAX,
{
    push_varint(out, l.len() as u64);
    let ghost base = out@;
    let ghost views = views_of(l@);
    proof {
        assert(views.skip(0) =~= views);
    }
    let mut k: usize = 0;
    while k < l.len()
        invariant
            k <= l@.len(),
            views == views_of(l@),
            out@ + strs_bytes(views.skip(k as int)) == base + strs_bytes(views),
            forall|q: int| 0 <= q < k ==> encode_utf8(#[trigger] views[q]).len() <= usize::MAX,
        decreases l@.len() - k,
    {
        let ghost pre = out@;
        push_string(out, l[k].as_str());
        proof {
            assert(views.skip(k as int).first() == l@[k as int]@);
            assert(views.skip(k as int).drop_first() =~= views.skip(k as int + 1));
            assert(out@ + strs_bytes(views.skip(k as int + 1)) =~= pre + strs_bytes(
                views.skip(k as int),
            ));
        }
        k += 1;
    }
    proof {
        assert(views.skip(views.len() as int) =~= Seq::<Seq<char>>::empty());
        assert(out@ + Seq::<u8>::empty() =~= out@);
        assert(final(out)@ =~= old(out)@ + varint(l@.len() as u64) + strs_bytes(views));
    }
}

/// The character sequences a string vector holds.
pub open spec fn views_of(l: Seq<String>) -> Seq<Seq<char>> {
    l.map_values(|s: String| s@)
}

/// Read a counted string list at `*pos`, advancing it.
pub fn read_str_list(s: &[u8], pos: &mut usize) -> (r: Option<Vec<String>>)
    requires
        *old(pos) <= s@.len(),
    ensures
        *final(pos) <= s@.len(),
        match parse_str_list(s@, *old(pos) as int) {
            Some(p) => r matches Some(v) && views_of(v@) == p.0 && *final(pos) == p.1,
            None => r is None,
        },
{
    proof {
        lemma_parse_varint_bounds(s@, *pos as int);
    }
    let count = match read_varint(s, pos) {
        None => {
            return None;
        },
        Some(n) => n,
    };
    let mut out: Vec<String> = Vec::new();
    let mut left = count;
    let ghost start = *pos as int;
    proof {
        assert(views_of(out@) =~= Seq::<Seq<char>>::empty());
        match parse_strs(s@, start, count as nat) {
            Some(p) => {
                assert(views_of(out@) + p.0 =~= p.0);
            },
            None => {},
        }
    }
    while left > 0
        invariant
            *pos <= s@.len(),
            left <= count,
            out@.len() == count - left,
            parse_str_list(s@, *old(pos) as int) == parse_strs(s@, start, count as nat),
            match parse_strs(s@, *pos as int, left as nat) {
                Some(p) => parse_strs(s@, start, count as nat) matches Some(q) && q.0 == views_of(
                    out@,
                ) + p.0 && q.1 == p.1,
                None => parse_strs(s@, start, count as nat) is None,
            },
        decreases left,
    {
        let ghost pre_pos = *pos as int;
        let ghost pre_out = out@;
        match read_string(s, pos) {
            None => {
                return None;
            },
            Some(sv) => {
                out.push(sv);
            },
        }
        left = left - 1;
        proof {
            let (head, j) = parse_str(s@, pre_pos).unwrap();
            assert(views_of(out@) =~= views_of(pre_out).push(head));
            match parse_strs(s@, *pos as int, left as nat) {
                Some(p) => {
                    assert(views_of(pre_out) + (seq![head] + p.0) =~= views_of(out@) + p.0);
                },
                None => {},
            }
        }
    }
    proof {
        match parse_strs(s@, *pos as int, 0nat) {
            Some(p) => {
                assert(views_of(out@) + p.0 =~= views_of(out@));
            },
            None => {},
        }
    }
    Some(out)
}

/// Parse a counted string list at `i`.
pub open spec fn parse_str_list(s: Seq<u8>, i: int) -> Option<(Seq<Seq<char>>, int)> {
    match parse_varint(s, i) {
        None => None,
        Some((n, j)) => parse_strs(s, j, n as nat),
    }
}

/// Append a counted unsigned list.
pub fn push_u64_list(out: &mut Vec<u8>, l: &Vec<u64>)
    ensures
        final(out)@ == old(out)@ + varint(l@.len() as u64) + u64s_bytes(l@),
{
    push_varint(out, l.len() as u64);
    let ghost base = out@;
    let ghost full = l@;
    proof {
        assert(full.skip(0) =~= full);
    }
    let mut k: usize = 0;
    while k < l.len()
        invariant
            k <= l@.len(),
            full == l@,
            out@ + u64s_bytes(full.skip(k as int)) == base + u64s_bytes(full),
        decreases l@.len() - k,
    {
        let ghost pre = out@;
        push_varint(out, l[k]);
        proof {
            assert(full.skip(k as int).first() == l@[k as int]);
            assert(full.skip(k as int).drop_first() =~= full.skip(k as int + 1));
            assert(out@ + u64s_bytes(full.skip(k as int + 1)) =~= pre + u64s_bytes(
                full.skip(k as int),
            ));
        }
        k += 1;
    }
    proof {
        assert(full.skip(full.len() as int) =~= Seq::<u64>::empty());
        assert(out@ + Seq::<u8>::empty() =~= out@);
        assert(final(out)@ =~= old(out)@ + varint(l@.len() as u64) + u64s_bytes(full));
    }
}

/// Parse a counted unsigned list at `i`.
pub open spec fn parse_u64_list(s: Seq<u8>, i: int) -> Option<(Seq<u64>, int)> {
    match parse_varint(s, i) {
        None => None,
        Some((n, j)) => parse_u64s(s, j, n as nat),
    }
}

/// Read a counted unsigned list at `*pos`, advancing it.
pub fn read_u64_list(s: &[u8], pos: &mut usize) -> (r: Option<Vec<u64>>)
    requires
        *old(pos) <= s@.len(),
    ensures
        *final(pos) <= s@.len(),
        match parse_u64_list(s@, *old(pos) as int) {
            Some(p) => r matches Some(v) && v@ == p.0 && *final(pos) == p.1,
            None => r is None,
        },
{
    proof {
        lemma_parse_varint_bounds(s@, *pos as int);
    }
    let count = match read_varint(s, pos) {
        None => {
            return None;
        },
        Some(n) => n,
    };
    let mut out: Vec<u64> = Vec::new();
    let mut left = count;
    let ghost start = *pos as int;
    proof {
        match parse_u64s(s@, start, count as nat) {
            Some(p) => {
                assert(out@ + p.0 =~= p.0);
            },
            None => {},
        }
    }
    while left > 0
        invariant
            *pos <= s@.len(),
            left <= count,
            out@.len() == count - left,
            parse_u64_list(s@, *old(pos) as int) == parse_u64s(s@, start, count as nat),
            match parse_u64s(s@, *pos as int, left as nat) {
                Some(p) => parse_u64s(s@, start, count as nat) matches Some(q) && q.0 == out@ + p.0
                    && q.1 == p.1,
                None => parse_u64s(s@, start, count as nat) is None,
            },
        decreases left,
    {
        let ghost pre_pos = *pos as int;
        let ghost pre_out = out@;
        proof {
            lemma_parse_varint_bounds(s@, pre_pos);
        }
        match read_varint(s, pos) {
            None => {
                return None;
            },
            Some(v) => {
                out.push(v);
            },
        }
        left = left - 1;
        proof {
            let (head, j) = parse_varint(s@, pre_pos).unwrap();
            match parse_u64s(s@, *pos as int, left as nat) {
                Some(p) => {
                    assert(pre_out + (seq![head] + p.0) =~= out@ + p.0);
                },
                None => {},
            }
        }
    }
    proof {
        match parse_u64s(s@, *pos as int, 0nat) {
            Some(p) => {
                assert(out@ + p.0 =~= out@);
            },
            None => {},
        }
    }
    Some(out)
}

// --- tagged scalar values ---

/// The wire form of a value: a tag byte, then the payload.
pub open spec fn value_bytes(v: ValueModel) -> Seq<u8> {
    match v {
        ValueModel::Double(b) => seq![0u8] + varint(b),
        ValueModel::I64(x) => seq![1u8] + varint(zigzag(x)),
        ValueModel::Str(sv) => seq![2u8] + str_bytes(sv),
        ValueModel::True => seq![3u8],
        ValueModel::False => seq![4u8],
        ValueModel::Null => seq![5u8],
        ValueModel::Deleted => seq![6u8],
    }
}

/// Parse one value at `i`.
pub open spec fn parse_value(s: Seq<u8>, i: int) -> Option<(ValueModel, int)> {
    if i < 0 || i >= s.len() {
        None
    } else if s[i] == 0 {
        match parse_varint(s, i + 1) {
            None => None,
            Some((b, j)) => Some((ValueModel::Double(b), j)),
        }
    } else if s[i] == 1 {
        match parse_varint(s, i + 1) {
            None => None,
            Some((z, j)) => Some((ValueModel::I64(unzigzag(z)), j)),
        }
    } else if s[i] == 2 {
        match parse_str(s, i + 1) {
            None => None,
            Some((sv, j)) => Some((ValueModel::Str(sv), j)),
        }
    } else if s[i] == 3 {
        Some((ValueModel::True, i + 1))
    } else if s[i] == 4 {
        Some((ValueModel::False, i + 1))
    } else if s[i] == 5 {
        Some((ValueModel::Null, i + 1))
    } else if s[i] == 6 {
        Some((ValueModel::Deleted, i + 1))
    } else {
        None
    }
}

/// A parsed value ends after where it starts, within the buffer.
pub proof fn lemma_parse_value_bounds(s: Seq<u8>, i: int)
    ensures
        parse_value(s, i) matches Some(p) ==> i < p.1 <= s.len(),
{
    lemma_parse_varint_bounds(s, i + 1);
    lemma_parse_block_bounds(s, i + 1);
}

/// Round trip for one value.
pub proof fn lemma_value_round_trip(s: Seq<u8>, i: int, v: ValueModel)
    requires
        0 <= i,
        (v matches ValueModel::Str(sv) ==> encode_utf8(sv).len() <= u64::MAX),
        i + value_bytes(v).len() <= s.len(),
        forall|k: int| 0 <= k < value_bytes(v).len() ==> s[i + k] == value_bytes(v)[k],
    ensures
        parse_value(s, i) == Some((v, i + value_bytes(v).len())),
{
    assert(s[i + 0] == value_bytes(v)[0]);
    match v {
        ValueModel::Double(b) => {
            assert forall|k: int| 0 <= k < varint(b).len() implies s[i + 1 + k] == varint(b)[k] by {
                assert(value_bytes(v)[1 + k] == varint(b)[k]);
                assert(s[i + (1 + k)] == value_bytes(v)[1 + k]);
            }
            lemma_varint_round_trip(s, i + 1, b);
        },
        ValueModel::I64(x) => {
            assert forall|k: int| 0 <= k < varint(zigzag(x)).len() implies s[i + 1 + k] == varint(
                zigzag(x),
            )[k] by {
                assert(value_bytes(v)[1 + k] == varint(zigzag(x))[k]);
                assert(s[i + (1 + k)] == value_bytes(v)[1 + k]);
            }
            lemma_varint_round_trip(s, i + 1, zigzag(x));
            crate::varint::lemma_zigzag_round_trip(x);
        },
        ValueModel::Str(sv) => {
            assert forall|k: int| 0 <= k < str_bytes(sv).len() implies s[i + 1 + k] == str_bytes(
                sv,
            )[k] by {
                assert(value_bytes(v)[1 + k] == str_bytes(sv)[k]);
                assert(s[i + (1 + k)] == value_bytes(v)[1 + k]);
            }
            lemma_str_round_trip(s, i + 1, sv);
        },
        _ => {},
    }
}

/// Append one value.
pub fn push_value(out: &mut Vec<u8>, v: &Value)
    ensures
        final(out)@ == old(out)@ + value_bytes(v@),
        v@ matches ValueModel::Str(sv) ==> encode_utf8(sv).len() <= usize::MAX,
{
    match v {
        Value::Double(b) => {
            out.push(0);
            push_varint(out, *b);
        },
        Value::I64(x) => {
            out.push(1);
            push_varint(out, to_zigzag(*x));
        },
        Value::Str(sv) => {
            out.push(2);
            push_string(out, sv.as_str());
        },
        Value::True => out.push(3),
        Value::False => out.push(4),
        Value::Null => out.push(5),
        Value::Deleted => out.push(6),
    }
    proof {
        assert(final(out)@ =~= old(out)@ + value_bytes(v@));
    }
}

/// Read one value at `*pos`, advancing it.
pub fn read_value(s: &[u8], pos: &mut usize) -> (r: Option<Value>)
    requires
        *old(pos) <= s@.len(),
    ensures
        *final(pos) <= s@.len(),
        match parse_value(s@, *old(pos) as int) {
            Some(p) => r matches Some(v) && v@ == p.0 && *final(pos) == p.1,
            None => r is None,
        },
{
    let i = *pos;
    if i >= s.len() {
        return None;
    }
    let tag = s[i];
    *pos = i + 1;
    if tag == 0 {
        proof {
            lemma_parse_varint_bounds(s@, i as int + 1);
        }
        match read_varint(s, pos) {
            None => None,
            Some(b) => Some(Value::Double(b)),
        }
    } else if tag == 1 {
        proof {
            lemma_parse_varint_bounds(s@, i as int + 1);
        }
        match read_varint(s, pos) {
            None => None,
            Some(z) => Some(Value::I64(crate::varint::from_zigzag(z))),
        }
    } else if tag == 2 {
        match read_string(s, pos) {
            None => None,
            Some(sv) => Some(Value::Str(sv)),
        }
    } else if tag == 3 {
        Some(Value::True)
    } else if tag == 4 {
        Some(Value::False)
    } else if tag == 5 {
        Some(Value::Null)
    } else if tag == 6 {
        Some(Value::Deleted)
    } else {
        None
    }
}

// --- value lists ---

/// The wire form of a value list body: each value in order.
pub open spec fn vals_bytes(l: Seq<ValueModel>) -> Seq<u8>
    decreases l.len(),
{
    if l.len() == 0 {
        Seq::empty()
    } else {
        value_bytes(l.first()) + vals_bytes(l.drop_first())
    }
}

/// Parse `count` values at `i`.
pub open spec fn parse_vals(s: Seq<u8>, i: int, count: nat) -> Option<(Seq<ValueModel>, int)>
    decreases count,
{
    if count == 0 {
        Some((Seq::empty(), i))
    } else {
        match parse_value(s, i) {
            None => None,
            Some((v, j)) => match parse_vals(s, j, (count - 1) as nat) {
                None => None,
                Some((rest, k)) => Some((seq![v] + rest, k)),
            },
        }
    }
}

/// Parse a counted value list at `i`.
pub open spec fn parse_value_list(s: Seq<u8>, i: int) -> Option<(Seq<ValueModel>, int)> {
    match parse_varint(s, i) {
        None => None,
        Some((n, j)) => parse_vals(s, j, n as nat),
    }
}

/// Round trip for a value list body.
pub proof fn lemma_vals_round_trip(s: Seq<u8>, i: int, l: Seq<ValueModel>)
    requires
        0 <= i,
        forall|k: int|
            0 <= k < l.len() ==> (#[trigger] l[k] matches ValueModel::Str(sv) ==> encode_utf8(
                sv,
            ).len() <= u64::MAX),
        i + vals_bytes(l).len() <= s.len(),
        forall|k: int| 0 <= k < vals_bytes(l).len() ==> s[i + k] == vals_bytes(l)[k],
    ensures
        parse_vals(s, i, l.len() as nat) == Some((l, i + vals_bytes(l).len())),
    decreases l.len(),
{
    if l.len() > 0 {
        let head = l.first();
        let hb = value_bytes(head);
        assert forall|k: int| 0 <= k < hb.len() implies s[i + k] == hb[k] by {
            assert(vals_bytes(l)[k] == hb[k]);
        }
        assert(l[0] == head);
        lemma_value_round_trip(s, i, head);
        let j = i + hb.len();
        assert forall|k: int| 0 <= k < vals_bytes(l.drop_first()).len() implies s[j + k]
            == vals_bytes(l.drop_first())[k] by {
            assert(vals_bytes(l)[hb.len() + k] == vals_bytes(l.drop_first())[k]);
            assert(s[i + (hb.len() + k)] == vals_bytes(l)[hb.len() + k]);
        }
        assert forall|k: int|
            0 <= k < l.drop_first().len() implies (#[trigger] l.drop_first()[k] matches
        ValueModel::Str(sv) ==> encode_utf8(sv).len() <= u64::MAX) by {
            assert(l.drop_first()[k] == l[k + 1]);
        }
        lemma_vals_round_trip(s, j, l.drop_first());
        assert(seq![head] + l.drop_first() =~= l);
    }
}

/// The value models a value vector holds.
pub open spec fn val_views_of(l: Seq<Value>) -> Seq<ValueModel> {
    l.map_values(|v: Value| v@)
}

/// Append a counted value list.
pub fn push_value_list(out: &mut Vec<u8>, l: &Vec<Value>)
    ensures
        final(out)@ == old(out)@ + varint(l@.len() as u64) + vals_bytes(val_views_of(l@)),
        forall|k: int|
            0 <= k < l@.len() ==> (#[trigger] val_views_of(l@)[k] matches ValueModel::Str(sv)
                ==> encode_utf8(sv).len() <= usize::MAX),
{
    push_varint(out, l.len() as u64);
    let ghost base = out@;
    let ghost views = val_views_of(l@);
    proof {
        assert(views.skip(0) =~= views);
    }
    let mut k: usize = 0;
    while k < l.len()
        invariant
            k <= l@.len(),
            views == val_views_of(l@),
            out@ + vals_bytes(views.skip(k as int)) == base + vals_bytes(views),
            forall|q: int|
                0 <= q < k ==> (#[trigger] views[q] matches ValueModel::Str(sv) ==> encode_utf8(
                    sv,
                ).len() <= usize::MAX),
        decreases l@.len() - k,
    {
        let ghost pre = out@;
        push_value(out, &l[k]);
        proof {
            assert(views.skip(k as int).first() == l@[k as int]@);
            assert(views.skip(k as int).drop_first() =~= views.skip(k as int + 1));
            assert(out@ + vals_bytes(views.skip(k as int + 1)) =~= pre + vals_bytes(
                views.skip(k as int),
            ));
        }
        k += 1;
    }
    proof {
        assert(views.skip(views.len() as int) =~= Seq::<ValueModel>::empty());
        assert(out@ + Seq::<u8>::empty() =~= out@);
        assert(final(out)@ =~= old(out)@ + varint(l@.len() as u64) + vals_bytes(views));
    }
}

/// Read a counted value list at `*pos`, advancing it.
pub fn read_value_list(s: &[u8], pos: &mut usize) -> (r: Option<Vec<Value>>)
    requires
        *old(pos) <= s@.len(),
    ensures
        *final(pos) <= s@.len(),
        match parse_value_list(s@, *old(pos) as int) {
            Some(p) => r matches Some(v) && val_views_of(v@) == p.0 && *final(pos) == p.1,
            None => r is None,
        },
{
    proof {
        lemma_parse_varint_bounds(s@, *pos as int);
    }
    let count = match read_varint(s, pos) {
        None => {
            return None;
        },
        Some(n) => n,
    };
    let mut out: Vec<Value> = Vec::new();
    let mut left = count;
    let ghost start = *pos as int;
    proof {
        assert(val_views_of(out@) =~= Seq::<ValueModel>::empty());
        match parse_vals(s@, start, count as nat) {
            Some(p) => {
                assert(val_views_of(out@) + p.0 =~= p.0);
            },
            None => {},
        }
    }
    while left > 0
        invariant
            *pos <= s@.len(),
            left <= count,
            out@.len() == count - left,
            parse_value_list(s@, *old(pos) as int) == parse_vals(s@, start, count as nat),
            match parse_vals(s@, *pos as int, left as nat) {
                Some(p) => parse_vals(s@, start, count as nat) matches Some(q) && q.0
                    == val_views_of(out@) + p.0 && q.1 == p.1,
                None => parse_vals(s@, start, count as nat) is None,
            },
        decreases left,
    {
        let ghost pre_pos = *pos as int;
        let ghost pre_out = out@;
        proof {
            lemma_parse_value_bounds(s@, pre_pos);
        }
        match read_value(s, pos) {
            None => {
                return None;
            },
            Some(v) => {
                out.push(v);
            },
        }
        left = left - 1;
        proof {
            let (head, j) = parse_value(s@, pre_pos).unwrap();
            assert(val_views_of(out@) =~= val_views_of(pre_out).push(head));
            match parse_vals(s@, *pos as int, left as nat) {
                Some(p) => {
                    assert(val_views_of(pre_out) + (seq![head] + p.0) =~= val_views_of(out@)
                        + p.0);
                },
                None => {},
            }
        }
    }
    proof {
        match parse_vals(s@, *pos as int, 0nat) {
            Some(p) => {
                assert(val_views_of(out@) + p.0 =~= val_views_of(out@));
            },
            None => {},
        }
    }
    Some(out)
}

} // verus!
