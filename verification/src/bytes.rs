//! Byte-level primitives: little-endian fixed-width integers and the
//! Bitcoin compact-size (1/3/5/9-byte discriminated) integer form.

use vstd::prelude::*;

verus! {

/// The integer a byte sequence denotes in little-endian order.
pub open spec fn le_to_int(b: Seq<u8>) -> int
    decreases b.len(),
{
    if b.len() == 0 {
        0
    } else {
        b[0] + 256 * le_to_int(b.drop_first())
    }
}

/// The `n`-byte little-endian encoding of a non-negative integer.
pub open spec fn le_bytes(v: int, n: int) -> Seq<u8>
    decreases n,
{
    if n <= 0 {
        Seq::empty()
    } else {
        seq![(v % 256) as u8] + le_bytes(v / 256, n - 1)
    }
}

/// 256 to the power `n`.
pub open spec fn pow256(n: int) -> int
    decreases n,
{
    if n <= 0 {
        1
    } else {
        256 * pow256(n - 1)
    }
}

pub proof fn lemma_le_bytes_len(v: int, n: int)
    requires
        n >= 0,
    ensures
        le_bytes(v, n).len() == n,
    decreases n,
{
    if n > 0 {
        lemma_le_bytes_len(v / 256, n - 1);
    }
}

pub proof fn lemma_le_to_int_bound(b: Seq<u8>)
    ensures
        0 <= le_to_int(b) < pow256(b.len() as int),
    decreases b.len(),
{
    if b.len() > 0 {
        lemma_le_to_int_bound(b.drop_first());
    }
}

/// Reading back the little-endian encoding of `v` yields `v`.
pub proof fn lemma_le_round_trip(v: int, n: int)
    requires
        n >= 0,
        0 <= v < pow256(n),
    ensures
        le_to_int(le_bytes(v, n)) == v,
    decreases n,
{
    if n > 0 {
        lemma_le_round_trip(v / 256, n - 1);
        lemma_le_bytes_len(v / 256, n - 1);
        assert(le_bytes(v, n).drop_first() =~= le_bytes(v / 256, n - 1));
    }
}

pub proof fn lemma_pow256_pos(n: int)
    ensures
        pow256(n) >= 1,
    decreases n,
{
    if n > 0 {
        lemma_pow256_pos(n - 1);
    }
}

pub proof fn lemma_pow256_values()
    ensures
        pow256(0) == 1,
        pow256(1) == 0x100,
        pow256(3) == 0x100_0000,
        pow256(2) == 0x1_0000,
        pow256(4) == 0x1_0000_0000,
        pow256(8) == 0x1_0000_0000_0000_0000,
{
    assert(pow256(8) == 0x1_0000_0000_0000_0000) by {
        reveal_with_fuel(pow256, 9);
    }
    assert(pow256(4) == 0x1_0000_0000) by {
        reveal_with_fuel(pow256, 5);
    }
    assert(pow256(3) == 0x100_0000) by {
        reveal_with_fuel(pow256, 4);
    }
    assert(pow256(2) == 0x1_0000) by {
        reveal_with_fuel(pow256, 3);
    }
    assert(pow256(1) == 0x100) by {
        reveal_with_fuel(pow256, 2);
    }
}

/// Unfolds `le_to_int` over a four-byte sequence.
pub proof fn lemma_le_to_int4(s: Seq<u8>)
    requires
        s.len() == 4,
    ensures
        le_to_int(s) == s[0] + 256 * (s[1] + 256 * (s[2] + 256 * s[3])),
{
    let s1 = s.drop_first();
    let s2 = s1.drop_first();
    let s3 = s2.drop_first();
    let s4 = s3.drop_first();
    assert(s1[0] == s[1] && s2[0] == s[2] && s3[0] == s[3]);
    assert(le_to_int(s) == s[0] + 256 * le_to_int(s1));
    assert(le_to_int(s1) == s[1] + 256 * le_to_int(s2));
    assert(le_to_int(s2) == s[2] + 256 * le_to_int(s3));
    assert(le_to_int(s3) == s[3] + 256 * le_to_int(s4));
    assert(s4.len() == 0);
    assert(le_to_int(s4) == 0);
}

/// Reads a 16-bit little-endian integer.
pub fn read_u16_le(data: &Vec<u8>, pos: usize) -> (r: u16)
    requires
        pos + 2 <= data@.len(),
    ensures
        r as int == le_to_int(data@.subrange(pos as int, pos + 2)),
{
    let n = data.len();
    let b0 = data[pos];
    let b1 = data[pos + 1];
    let r: u16 = b0 as u16 + 256 * (b1 as u16);
    proof {
        let s = data@.subrange(pos as int, pos + 2);
        let s1 = s.drop_first();
        assert(s1[0] == s[1]);
        assert(le_to_int(s) == s[0] + 256 * le_to_int(s1));
        assert(le_to_int(s1) == s[1] + 256 * le_to_int(s1.drop_first()));
        assert(s1.drop_first().len() == 0);
        assert(le_to_int(s1.drop_first()) == 0);
    }
    r
}

/// Reads a 32-bit little-endian integer.
pub fn read_u32_le(data: &Vec<u8>, pos: usize) -> (r: u32)
    requires
        pos + 4 <= data@.len(),
    ensures
        r as int == le_to_int(data@.subrange(pos as int, pos + 4)),
{
    let n = data.len();
    let b0 = data[pos] as u32;
    let b1 = data[pos + 1] as u32;
    let b2 = data[pos + 2] as u32;
    let b3 = data[pos + 3] as u32;
    let r: u32 = b0 + 256 * (b1 + 256 * (b2 + 256 * b3));
    proof {
        lemma_le_to_int4(data@.subrange(pos as int, pos + 4));
    }
    r
}

/// Reads a 64-bit little-endian integer.
pub fn read_u64_le(data: &Vec<u8>, pos: usize) -> (r: u64)
    requires
        pos + 8 <= data@.len(),
    ensures
        r as int == le_to_int(data@.subrange(pos as int, pos + 8)),
{
    let n = data.len();
    let lo = read_u32_le(data, pos);
    let hi = read_u32_le(data, pos + 4);
    let r: u64 = lo as u64 + 0x1_0000_0000 * (hi as u64);
    proof {
        let s = data@.subrange(pos as int, pos + 8);
        let lo_s = data@.subrange(pos as int, pos + 4);
        let hi_s = data@.subrange(pos + 4, pos + 8);
        lemma_le_split(s, 4);
        assert(s.subrange(0, 4) =~= lo_s);
        assert(s.subrange(4, s.len() as int) =~= hi_s);
        lemma_pow256_values();
    }
    r
}

/// `le_to_int` of a sequence splits at any position `k`.
pub proof fn lemma_le_split(b: Seq<u8>, k: int)
    requires
        0 <= k <= b.len(),
    ensures
        le_to_int(b) == le_to_int(b.subrange(0, k)) + pow256(k) * le_to_int(
            b.subrange(k, b.len() as int),
        ),
    decreases k,
{
    if k == 0 {
        assert(b.subrange(0, 0).len() == 0);
        assert(le_to_int(b.subrange(0, 0)) == 0);
        assert(b.subrange(0, b.len() as int) =~= b);
    } else {
        let t = b.drop_first();
        lemma_le_split(t, k - 1);
        let front = t.subrange(0, k - 1);
        let back = t.subrange(k - 1, t.len() as int);
        let p1 = pow256(k - 1);
        assert(front =~= b.subrange(0, k).drop_first());
        assert(back =~= b.subrange(k, b.len() as int));
        let lb = le_to_int(b);
        let l0k = le_to_int(b.subrange(0, k));
        let lfront = le_to_int(front);
        let lback = le_to_int(back);
        assert(l0k == b[0] + 256 * le_to_int(b.subrange(0, k).drop_first()));
        assert(l0k == b[0] + 256 * lfront);
        assert(lb == b[0] + 256 * le_to_int(t));
        assert(le_to_int(t) == lfront + p1 * lback);
        assert(256 * (lfront + p1 * lback) == 256 * lfront + (256 * p1) * lback)
            by (nonlinear_arith);
        assert(lb == l0k + (256 * p1) * lback);
        assert(pow256(k) == 256 * p1);
        assert(lb == l0k + pow256(k) * lback);
        assert(le_to_int(b.subrange(k, b.len() as int)) == lback);
    }
}

/// Appends the `n`-byte little-endian encoding of `v`.
pub fn push_le_bytes(out: &mut Vec<u8>, v: u64, n: usize)
    ensures
        final(out)@ == old(out)@ + le_bytes(v as int, n as int),
    decreases n,
{
    if n == 0 {
        assert(out@ =~= old(out)@ + le_bytes(v as int, 0));
    } else {
        let b: u8 = (v % 256) as u8;
        out.push(b);
        push_le_bytes(out, v / 256, n - 1);
        proof {
            assert(out@ =~= old(out)@ + (seq![b] + le_bytes(v as int / 256, n - 1)));
        }
    }
}

/// The serialized compact-size form of a non-negative integer.
pub open spec fn ser_compact_size(v: int) -> Seq<u8> {
    if v < 0xfd {
        seq![v as u8]
    } else if v <= 0xffff {
        seq![0xfdu8] + le_bytes(v, 2)
    } else if v <= 0xffff_ffff {
        seq![0xfeu8] + le_bytes(v, 4)
    } else {
        seq![0xffu8] + le_bytes(v, 8)
    }
}

/// Parses a compact-size integer at `pos`, returning the value and the
/// number of bytes consumed. Rejects non-minimal (oversize) encodings.
pub open spec fn parse_compact_size(b: Seq<u8>, pos: int) -> Option<(int, int)> {
    if pos < 0 || pos >= b.len() {
        None
    } else {
        let tag = b[pos];
        if tag < 0xfd {
            Some((tag as int, 1))
        } else if tag == 0xfd {
            if pos + 3 <= b.len() {
                let v = le_to_int(b.subrange(pos + 1, pos + 3));
                if v >= 0xfd {
                    Some((v, 3))
                } else {
                    None
                }
            } else {
                None
            }
        } else if tag == 0xfe {
            if pos + 5 <= b.len() {
                let v = le_to_int(b.subrange(pos + 1, pos + 5));
                if v > 0xffff {
                    Some((v, 5))
                } else {
                    None
                }
            } else {
                None
            }
        } else {
            if pos + 9 <= b.len() {
                let v = le_to_int(b.subrange(pos + 1, pos + 9));
                if v > 0xffff_ffff {
                    Some((v, 9))
                } else {
                    None
                }
            } else {
                None
            }
        }
    }
}

/// Reads a compact-size integer; `None` on truncation or oversize encoding.
pub fn read_compact_size(data: &Vec<u8>, pos: usize) -> (r: Option<(u64, usize)>)
    ensures
        match r {
            Some(p) => parse_compact_size(data@, pos as int) == Some((p.0 as int, p.1 as int)),
            None => parse_compact_size(data@, pos as int) is None,
        },
{
    if pos >= data.len() {
        return None;
    }
    let tag = data[pos];
    let rem = data.len() - pos;
    if tag < 0xfd {
        Some((tag as u64, 1))
    } else if tag == 0xfd {
        if rem >= 3 {
            let v = read_u16_le(data, pos + 1);
            if v >= 0xfd {
                Some((v as u64, 3))
            } else {
                None
            }
        } else {
            None
        }
    } else if tag == 0xfe {
        if rem >= 5 {
            let v = read_u32_le(data, pos + 1);
            if v > 0xffff {
                Some((v as u64, 5))
            } else {
                None
            }
        } else {
            None
        }
    } else {
        if rem >= 9 {
            let v = read_u64_le(data, pos + 1);
            proof {
                lemma_le_to_int_bound(data@.subrange(pos + 1, pos + 9));
                lemma_pow256_values();
            }
            if v > 0xffff_ffff {
                Some((v, 9))
            } else {
                None
            }
        } else {
            None
        }
    }
}

/// Appends the compact-size encoding of `v`.
pub fn write_compact_size(out: &mut Vec<u8>, v: u64)
    ensures
        final(out)@ == old(out)@ + ser_compact_size(v as int),
{
    if v < 0xfd {
        out.push(v as u8);
        assert(out@ =~= old(out)@ + ser_compact_size(v as int));
    } else if v <= 0xffff {
        out.push(0xfd);
        push_le_bytes(out, v, 2);
        assert(out@ =~= old(out)@ + (seq![0xfdu8] + le_bytes(v as int, 2)));
    } else if v <= 0xffff_ffff {
        out.push(0xfe);
        push_le_bytes(out, v, 4);
        assert(out@ =~= old(out)@ + (seq![0xfeu8] + le_bytes(v as int, 4)));
    } else {
        out.push(0xff);
        push_le_bytes(out, v, 8);
        assert(out@ =~= old(out)@ + (seq![0xffu8] + le_bytes(v as int, 8)));
    }
}

/// A compact-size encoding embedded in a larger sequence parses back to
/// the value it was written from.
pub proof fn lemma_compact_size_round_trip(b: Seq<u8>, pos: int, v: int)
    requires
        0 <= v < 0x1_0000_0000_0000_0000,
        0 <= pos,
        pos + ser_compact_size(v).len() <= b.len(),
        b.subrange(pos, pos + ser_compact_size(v).len()) == ser_compact_size(v),
    ensures
        parse_compact_size(b, pos) == Some((v, ser_compact_size(v).len() as int)),
{
    let s = ser_compact_size(v);
    lemma_pow256_values();
    if v < 0xfd {
        assert(b[pos] == s[0]);
        assert(s[0] == v as u8);
    } else if v <= 0xffff {
        lemma_le_bytes_len(v, 2);
        assert(b[pos] == s[0]);
        assert(b.subrange(pos + 1, pos + 3) =~= s.subrange(1, 3));
        assert(s.subrange(1, 3) =~= le_bytes(v, 2));
        lemma_le_round_trip(v, 2);
    } else if v <= 0xffff_ffff {
        lemma_le_bytes_len(v, 4);
        assert(b[pos] == s[0]);
        assert(b.subrange(pos + 1, pos + 5) =~= s.subrange(1, 5));
        assert(s.subrange(1, 5) =~= le_bytes(v, 4));
        lemma_le_round_trip(v, 4);
    } else {
        lemma_le_bytes_len(v, 8);
        assert(b[pos] == s[0]);
        assert(b.subrange(pos + 1, pos + 9) =~= s.subrange(1, 9));
        assert(s.subrange(1, 9) =~= le_bytes(v, 8));
        lemma_le_round_trip(v, 8);
    }
}

/// Appends every byte of a slice.
pub fn push_slice(out: &mut Vec<u8>, s: &[u8])
    ensures
        final(out)@ == old(out)@ + s@,
{
    let mut i: usize = 0;
    while i < s.len()
        invariant
            i <= s@.len(),
            out@ == old(out)@ + s@.subrange(0, i as int),
        decreases s@.len() - i,
    {
        out.push(s[i]);
        proof {
            assert(out@ =~= old(out)@ + s@.subrange(0, i + 1));
        }
        i = i + 1;
    }
    proof {
        assert(old(out)@ + s@.subrange(0, s@.len() as int) =~= old(out)@ + s@);
    }
}

/// A compact-size parse consumes between 1 and 9 bytes, stays within the
/// buffer, and yields a value below 2^64.
pub proof fn lemma_parse_compact_size_bounds(b: Seq<u8>, pos: int)
    requires
        parse_compact_size(b, pos) is Some,
    ensures
        ({
            let p = parse_compact_size(b, pos);
            p matches Some(q) ==> {
                &&& 0 <= q.0 < 0x1_0000_0000_0000_0000
                &&& 1 <= q.1 <= 9
                &&& 0 <= pos
                &&& pos + q.1 <= b.len()
            }
        }),
{
    lemma_pow256_values();
    let tag = b[pos];
    if tag < 0xfd {
    } else if tag == 0xfd {
        lemma_le_to_int_bound(b.subrange(pos + 1, pos + 3));
        assert(pow256(2) < 0x1_0000_0000_0000_0000);
    } else if tag == 0xfe {
        lemma_le_to_int_bound(b.subrange(pos + 1, pos + 5));
        assert(pow256(4) < 0x1_0000_0000_0000_0000);
    } else {
        lemma_le_to_int_bound(b.subrange(pos + 1, pos + 9));
    }
}

/// Copies `data[start..end]` into a fresh vector.
pub fn subvec(data: &Vec<u8>, start: usize, end: usize) -> (r: Vec<u8>)
    requires
        start <= end <= data@.len(),
    ensures
        r@ == data@.subrange(start as int, end as int),
{
    let mut r: Vec<u8> = Vec::new();
    let mut i: usize = start;
    while i < end
        invariant
            start <= i <= end <= data@.len(),
            r@ == data@.subrange(start as int, i as int),
        decreases end - i,
    {
        r.push(data[i]);
        proof {
            assert(r@ =~= data@.subrange(start as int, i + 1));
        }
        i = i + 1;
    }
    r
}

} // verus!
