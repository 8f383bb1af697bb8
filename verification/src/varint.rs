//! Variable-length integers: the base-128 wire form used by every stream
//! in the delta and snapshot codecs, and the zigzag mapping that lets the
//! run-length layers carry signed values.

use vstd::arithmetic::div_mod::lemma_fundamental_div_mod;
use vstd::prelude::*;

verus! {

/// The wire bytes of an unsigned value: seven payload bits per byte,
/// least-significant group first, high bit set on every byte but the last.
pub open spec fn varint(n: u64) -> Seq<u8>
    decreases n,
{
    if n < 128 {
        seq![n as u8]
    } else {
        seq![(n % 128 + 128) as u8] + varint((n / 128) as u64)
    }
}

/// A varint is at least one byte.
pub proof fn lemma_varint_nonempty(n: u64)
    ensures
        varint(n).len() >= 1,
{
}

/// Parse one varint at position `i`: the value and the position after it.
/// `None` on a truncated or overflowing encoding.
pub open spec fn parse_varint(s: Seq<u8>, i: int) -> Option<(u64, int)>
    decreases s.len() - i,
{
    if i < 0 || i >= s.len() {
        None
    } else if s[i] < 128 {
        Some((s[i] as u64, i + 1))
    } else {
        match parse_varint(s, i + 1) {
            None => None,
            Some((v, j)) => {
                let val = (s[i] - 128) + 128 * (v as int);
                if val <= u64::MAX {
                    Some((val as u64, j))
                } else {
                    None
                }
            },
        }
    }
}

/// A parsed varint ends after where it starts, within the buffer.
pub proof fn lemma_parse_varint_bounds(s: Seq<u8>, i: int)
    ensures
        parse_varint(s, i) matches Some(p) ==> i < p.1 <= s.len(),
    decreases s.len() - i,
{
    if 0 <= i < s.len() && s[i] >= 128 {
        lemma_parse_varint_bounds(s, i + 1);
    }
}

/// Parsing shifts with the buffer: dropping `i` leading bytes moves every
/// position down by `i`.
pub proof fn lemma_parse_varint_skip(u: Seq<u8>, i: int, j: int)
    requires
        0 <= i <= j <= u.len(),
    ensures
        match parse_varint(u.skip(i), j - i) {
            None => parse_varint(u, j) is None,
            Some(p) => parse_varint(u, j) == Some((p.0, p.1 + i)),
        },
    decreases u.len() - j,
{
    if j < u.len() {
        assert(u.skip(i)[j - i] == u[j]);
        if u[j] >= 128 {
            lemma_parse_varint_skip(u, i, j + 1);
        }
    }
}

/// Round trip: the bytes of `varint(n)` placed at position `i` parse back
/// to `n`, whatever follows them.
pub proof fn lemma_varint_round_trip(s: Seq<u8>, i: int, n: u64)
    requires
        0 <= i,
        i + varint(n).len() <= s.len(),
        forall|k: int| 0 <= k < varint(n).len() ==> s[i + k] == varint(n)[k],
    ensures
        parse_varint(s, i) == Some((n, i + varint(n).len())),
    decreases n,
{
    if n < 128 {
        assert(s[i] == varint(n)[0]);
    } else {
        let m = (n / 128) as u64;
        assert forall|k: int| 0 <= k < varint(m).len() implies s[i + 1 + k] == varint(m)[k] by {
            assert(varint(n)[1 + k] == varint(m)[k]);
            assert(s[i + (1 + k)] == varint(n)[1 + k]);
        }
        lemma_varint_round_trip(s, i + 1, m);
        assert(s[i] == varint(n)[0]);
        lemma_fundamental_div_mod(n as int, 128);
    }
}

/// Append the wire bytes of `n`.
pub fn push_varint(out: &mut Vec<u8>, n: u64)
    ensures
        final(out)@ == old(out)@ + varint(n),
{
    let mut cur: u64 = n;
    while cur >= 128
        invariant
            old(out)@ + varint(n) == out@ + varint(cur),
        decreases cur,
    {
        out.push((cur % 128 + 128) as u8);
        proof {
            assert(out@ + varint((cur / 128) as u64) =~= out@.drop_last() + varint(cur));
        }
        cur = cur / 128;
    }
    out.push(cur as u8);
    proof {
        assert(out@ =~= out@.drop_last() + varint(cur));
        assert(final(out)@ =~= old(out)@ + varint(n));
    }
}

/// Read one varint at `*pos`, advancing it. `None` on truncated or
/// overflowing input, with `*pos` unspecified.
pub fn read_varint(s: &[u8], pos: &mut usize) -> (r: Option<u64>)
    ensures
        match parse_varint(s@, *old(pos) as int) {
            Some(p) => r == Some(p.0) && *final(pos) == p.1,
            None => r is None,
        },
        *old(pos) <= s@.len() ==> *final(pos) <= s@.len(),
    decreases s@.len() - *old(pos),
{
    let i = *pos;
    if i >= s.len() {
        return None;
    }
    let b = s[i];
    if b < 128 {
        *pos = i + 1;
        Some(b as u64)
    } else {
        *pos = i + 1;
        match read_varint(s, pos) {
            None => None,
            Some(v) => {
                let low = (b - 128) as u64;
                if v <= (u64::MAX - low) / 128 {
                    proof {
                        lemma_fundamental_div_mod((u64::MAX - low) as int, 128);
                    }
                    Some(low + 128 * v)
                } else {
                    proof {
                        lemma_fundamental_div_mod((u64::MAX - low) as int, 128);
                    }
                    None
                }
            },
        }
    }
}

/// The zigzag image of a signed value: non-negatives to evens, negatives
/// to odds, so that small magnitudes stay small on the wire.
pub open spec fn zigzag(n: i64) -> u64 {
    if n >= 0 {
        (2 * (n as int)) as u64
    } else {
        ((-2) * (n as int) - 1) as u64
    }
}

/// The signed value a zigzag image stands for.
pub open spec fn unzigzag(u: u64) -> i64 {
    if u % 2 == 0 {
        ((u as int) / 2) as i64
    } else {
        ((-1) - (u as int) / 2) as i64
    }
}

/// The two maps invert each other.
pub proof fn lemma_zigzag_round_trip(n: i64)
    ensures
        unzigzag(zigzag(n)) == n,
{
}

/// Map a signed value to its zigzag image.
pub fn to_zigzag(n: i64) -> (r: u64)
    ensures
        r == zigzag(n),
{
    if n >= 0 {
        (n as u64) * 2
    } else {
        let m = -(n + 1);
        (m as u64) * 2 + 1
    }
}

/// Map a zigzag image back to its signed value.
pub fn from_zigzag(u: u64) -> (r: i64)
    ensures
        r == unzigzag(u),
{
    if u % 2 == 0 {
        (u / 2) as i64
    } else {
        -(((u - 1) / 2) as i64) - 1
    }
}

} // verus!
