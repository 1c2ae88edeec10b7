//! Wire primitives: length-prefixed byte strings and fixed-width integer
//! fields, with matching readers, plus the framing used for gossip messages.
//!
//! Every encoder has a spec-level rendering; every reader returns exactly
//! what the spec-level decoder reads at the same position.

use vstd::prelude::*;
use crate::endian::{
    u64_be_bytes, u64_of_be, u32_be_bytes, u32_of_be, u64_to_be, u64_from_be, u32_to_be,
    u32_from_be, lemma_u64_be_roundtrip, lemma_u32_be_roundtrip,
};
use crate::util::{copy_bytes, extend_bytes};

verus! {

/// An eight-byte big-endian length prefix followed by the bytes themselves.
pub open spec fn len_pref(s: Seq<u8>) -> Seq<u8>
    recommends
        s.len() <= u64::MAX,
{
    u64_be_bytes(s.len() as u64) + s
}

/// Reads one length-prefixed byte string starting at position `i`: the
/// bytes and the position just after them.
pub open spec fn dec_len_pref(s: Seq<u8>, i: int) -> Option<(Seq<u8>, int)> {
    if 0 <= i && i + 8 <= s.len() {
        let n = u64_of_be(s.subrange(i, i + 8)) as int;
        if i + 8 + n <= s.len() {
            Some((s.subrange(i + 8, i + 8 + n), i + 8 + n))
        } else {
            None
        }
    } else {
        None
    }
}

/// Reads one eight-byte big-endian integer starting at position `i`.
pub open spec fn dec_u64(s: Seq<u8>, i: int) -> Option<(u64, int)> {
    if 0 <= i && i + 8 <= s.len() {
        Some((u64_of_be(s.subrange(i, i + 8)), i + 8))
    } else {
        None
    }
}

/// Reads one four-byte big-endian integer starting at position `i`.
pub open spec fn dec_u32(s: Seq<u8>, i: int) -> Option<(u32, int)> {
    if 0 <= i && i + 4 <= s.len() {
        Some((u32_of_be(s.subrange(i, i + 4)), i + 4))
    } else {
        None
    }
}

/// Reading at a position where a length-prefixed string was written yields
/// exactly that string.
pub proof fn lemma_dec_len_pref(s: Seq<u8>, i: int, x: Seq<u8>)
    requires
        0 <= i,
        x.len() <= u64::MAX,
        i + 8 + x.len() <= s.len(),
        s.subrange(i, i + 8 + x.len()) == len_pref(x),
    ensures
        dec_len_pref(s, i) == Some((x, i + 8 + x.len() as int)),
{
    lemma_u64_be_roundtrip(x.len() as u64);
    assert(s.subrange(i, i + 8) =~= s.subrange(i, i + 8 + x.len()).subrange(0, 8));
    assert(len_pref(x).subrange(0, 8) =~= u64_be_bytes(x.len() as u64));
    assert(u64_of_be(s.subrange(i, i + 8)) == x.len());
    assert(s.subrange(i + 8, i + 8 + x.len()) =~= s.subrange(i, i + 8 + x.len()).subrange(
        8,
        8 + x.len() as int,
    ));
    assert(len_pref(x).subrange(8, 8 + x.len() as int) =~= x);
}

/// Reading at a position where an eight-byte big-endian integer was
/// written yields exactly that integer.
pub proof fn lemma_dec_u64(s: Seq<u8>, i: int, x: u64)
    requires
        0 <= i,
        i + 8 <= s.len(),
        s.subrange(i, i + 8) == u64_be_bytes(x),
    ensures
        dec_u64(s, i) == Some((x, i + 8)),
{
    lemma_u64_be_roundtrip(x);
}

/// Reading at a position where a four-byte big-endian integer was written
/// yields exactly that integer.
pub proof fn lemma_dec_u32(s: Seq<u8>, i: int, x: u32)
    requires
        0 <= i,
        i + 4 <= s.len(),
        s.subrange(i, i + 4) == u32_be_bytes(x),
    ensures
        dec_u32(s, i) == Some((x, i + 4)),
{
    lemma_u32_be_roundtrip(x);
}

/// A window of `s` that holds a copy of `e` seen through a sub-window.
pub proof fn lemma_subwindow(s: Seq<u8>, i: int, e: Seq<u8>, a: int, b: int)
    requires
        0 <= i,
        i + e.len() <= s.len(),
        s.subrange(i, i + e.len()) == e,
        0 <= a <= b <= e.len(),
    ensures
        s.subrange(i + a, i + b) == e.subrange(a, b),
{
    assert forall|k: int| 0 <= k < b - a implies s.subrange(i + a, i + b)[k] == e.subrange(a, b)[k] by {
        assert(s.subrange(i, i + e.len())[a + k] == s[i + a + k]);
    }
    assert(s.subrange(i + a, i + b) =~= e.subrange(a, b));
}

/// The four windows of a four-part concatenation.
pub proof fn lemma_cat4_windows(a: Seq<u8>, b: Seq<u8>, c: Seq<u8>, d: Seq<u8>)
    ensures
        (a + b + c + d).subrange(0, a.len() as int) == a,
        (a + b + c + d).subrange(a.len() as int, a.len() + b.len() as int) == b,
        (a + b + c + d).subrange(a.len() + b.len() as int, a.len() + b.len() + c.len() as int)
            == c,
        (a + b + c + d).subrange(
            a.len() + b.len() + c.len() as int,
            a.len() + b.len() + c.len() + d.len() as int,
        ) == d,
{
    let e = a + b + c + d;
    let la = a.len() as int;
    let lb = b.len() as int;
    let lc = c.len() as int;
    let ld = d.len() as int;
    assert forall|k: int| 0 <= k < e.len() implies e[k] == (if k < la {
        a[k]
    } else if k < la + lb {
        b[k - la]
    } else if k < la + lb + lc {
        c[k - la - lb]
    } else {
        d[k - la - lb - lc]
    }) by {
        assert(e[k] == ((a + b) + c)[k] || e[k] == d[k - la - lb - lc]);
        if k < la + lb + lc {
            assert(((a + b) + c)[k] == (a + b)[k] || ((a + b) + c)[k] == c[k - la - lb]);
        }
    }
    assert(e.subrange(0, la) =~= a);
    assert(e.subrange(la, la + lb) =~= b);
    assert(e.subrange(la + lb, la + lb + lc) =~= c);
    assert(e.subrange(la + lb + lc, la + lb + lc + ld) =~= d);
}

/// Appends a length-prefixed byte string.
pub fn write_len_pref(out: &mut Vec<u8>, s: &[u8])
    ensures
        final(out)@ == old(out)@ + len_pref(s@),
{
    let lp = u64_to_be(s.len() as u64);
    extend_bytes(out, lp.as_slice());
    extend_bytes(out, s);
    proof {
        assert(out@ =~= old(out)@ + len_pref(s@));
    }
}

/// Appends an eight-byte big-endian integer.
pub fn write_u64(out: &mut Vec<u8>, x: u64)
    ensures
        final(out)@ == old(out)@ + u64_be_bytes(x),
{
    let b = u64_to_be(x);
    extend_bytes(out, b.as_slice());
}

/// Appends a four-byte big-endian integer.
pub fn write_u32(out: &mut Vec<u8>, x: u32)
    ensures
        final(out)@ == old(out)@ + u32_be_bytes(x),
{
    let b = u32_to_be(x);
    extend_bytes(out, b.as_slice());
}

/// Reads one length-prefixed byte string starting at `i`.
pub fn read_len_pref(s: &[u8], i: usize) -> (r: Option<(Vec<u8>, usize)>)
    requires
        i <= s@.len(),
    ensures
        match r {
            Some(p) => dec_len_pref(s@, i as int) == Some((p.0@, p.1 as int)) && i < p.1
                <= s@.len(),
            None => dec_len_pref(s@, i as int) is None,
        },
{
    if s.len() - i < 8 {
        return None;
    }
    let n64 = u64_from_be(&s[i..i + 8]);
    let rem64 = (s.len() - i - 8) as u64;
    if n64 > rem64 {
        return None;
    }
    let n = n64 as usize;
    let v = copy_bytes(&s[i + 8..i + 8 + n]);
    Some((v, i + 8 + n))
}

/// Reads one eight-byte big-endian integer starting at `i`.
pub fn read_u64(s: &[u8], i: usize) -> (r: Option<(u64, usize)>)
    requires
        i <= s@.len(),
    ensures
        match r {
            Some(p) => dec_u64(s@, i as int) == Some((p.0, p.1 as int)) && i < p.1 <= s@.len(),
            None => dec_u64(s@, i as int) is None,
        },
{
    if s.len() - i < 8 {
        return None;
    }
    let x = u64_from_be(&s[i..i + 8]);
    Some((x, i + 8))
}

/// Reads one four-byte big-endian integer starting at `i`.
pub fn read_u32(s: &[u8], i: usize) -> (r: Option<(u32, usize)>)
    requires
        i <= s@.len(),
    ensures
        match r {
            Some(p) => dec_u32(s@, i as int) == Some((p.0, p.1 as int)) && i < p.1 <= s@.len(),
            None => dec_u32(s@, i as int) is None,
        },
{
    if s.len() - i < 4 {
        return None;
    }
    let x = u32_from_be(&s[i..i + 4]);
    Some((x, i + 4))
}

/// Reads the eight-byte big-endian length prefix of a gossip frame: the
/// payload length that follows on the stream, when it fits this machine.
pub fn parse_frame_len(prefix: &[u8]) -> (r: Option<usize>)
    requires
        prefix@.len() == 8,
    ensures
        match r {
            Some(n) => n == u64_of_be(prefix@),
            None => u64_of_be(prefix@) > usize::MAX,
        },
{
    let n = u64_from_be(prefix);
    if n > usize::MAX as u64 {
        return None;
    }
    Some(n as usize)
}

} // verus!
