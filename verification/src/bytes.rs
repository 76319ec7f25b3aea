//! Little-endian primitive codec: fixed-width integer reads and writes over
//! an in-memory byte buffer, NUL-terminated string scanning, and 4-byte
//! alignment arithmetic.  Every multi-byte value in a layout file is
//! little-endian; the byte-order marker in the header only confirms this.

use vstd::prelude::*;

verus! {

/// The 16-bit value stored little-endian in two bytes.
pub open spec fn le16(b0: u8, b1: u8) -> u16 {
    (b0 as u16) | (b1 as u16) << 8
}

/// The 32-bit value stored little-endian in four bytes.
pub open spec fn le32(b0: u8, b1: u8, b2: u8, b3: u8) -> u32 {
    (b0 as u32) | (b1 as u32) << 8 | (b2 as u32) << 16 | (b3 as u32) << 24
}

/// The 16-bit value read at position `i` of `b`.
pub open spec fn le16_at(b: Seq<u8>, i: int) -> u16 {
    le16(b[i], b[i + 1])
}

/// The 32-bit value read at position `i` of `b`.
pub open spec fn le32_at(b: Seq<u8>, i: int) -> u32 {
    le32(b[i], b[i + 1], b[i + 2], b[i + 3])
}

/// The two-byte little-endian encoding of `v`.
pub open spec fn u16_bytes(v: u16) -> Seq<u8> {
    seq![(v & 0xff) as u8, ((v >> 8) & 0xff) as u8]
}

/// The four-byte little-endian encoding of `v`.
pub open spec fn u32_bytes(v: u32) -> Seq<u8> {
    seq![
        (v & 0xff) as u8,
        ((v >> 8) & 0xff) as u8,
        ((v >> 16) & 0xff) as u8,
        ((v >> 24) & 0xff) as u8,
    ]
}

/// Encoding a 16-bit value and reading it back yields the value.
pub proof fn lemma_le16_of_bytes(v: u16)
    ensures
        le16((v & 0xff) as u8, ((v >> 8) & 0xff) as u8) == v,
{
    assert(((v & 0xff) as u8 as u16) | (((v >> 8) & 0xff) as u8 as u16) << 8 == v) by (bit_vector);
}

/// Encoding a 32-bit value and reading it back yields the value.
pub proof fn lemma_le32_of_bytes(v: u32)
    ensures
        le32(
            (v & 0xff) as u8,
            ((v >> 8) & 0xff) as u8,
            ((v >> 16) & 0xff) as u8,
            ((v >> 24) & 0xff) as u8,
        ) == v,
{
    assert(((v & 0xff) as u8 as u32) | (((v >> 8) & 0xff) as u8 as u32) << 8 | (((v >> 16)
        & 0xff) as u8 as u32) << 16 | (((v >> 24) & 0xff) as u8 as u32) << 24 == v) by (bit_vector);
}

/// Reads the little-endian 16-bit value at `pos`.
pub fn read_u16(buf: &Vec<u8>, pos: usize) -> (r: u16)
    requires
        pos + 2 <= buf.len(),
    ensures
        r == le16_at(buf@, pos as int),
{
    (buf[pos] as u16) | (buf[pos + 1] as u16) << 8
}

/// Reads the little-endian 32-bit value at `pos`.
pub fn read_u32(buf: &Vec<u8>, pos: usize) -> (r: u32)
    requires
        pos + 4 <= buf.len(),
    ensures
        r == le32_at(buf@, pos as int),
{
    (buf[pos] as u32) | (buf[pos + 1] as u32) << 8 | (buf[pos + 2] as u32) << 16 | (buf[pos
        + 3] as u32) << 24
}

/// Appends the two-byte little-endian encoding of `v`.
pub fn write_u16(out: &mut Vec<u8>, v: u16)
    ensures
        final(out)@ == old(out)@ + u16_bytes(v),
{
    out.push((v & 0xff) as u8);
    out.push(((v >> 8) & 0xff) as u8);
    proof {
        assert(out@ =~= old(out)@ + u16_bytes(v));
    }
}

/// Appends the four-byte little-endian encoding of `v`.
pub fn write_u32(out: &mut Vec<u8>, v: u32)
    ensures
        final(out)@ == old(out)@ + u32_bytes(v),
{
    out.push((v & 0xff) as u8);
    out.push(((v >> 8) & 0xff) as u8);
    out.push(((v >> 16) & 0xff) as u8);
    out.push(((v >> 24) & 0xff) as u8);
    proof {
        assert(out@ =~= old(out)@ + u32_bytes(v));
    }
}

/// True when no byte of `s` is NUL.
pub open spec fn nul_free(s: Seq<u8>) -> bool {
    forall|i: int| 0 <= i < s.len() ==> s[i] != 0
}

/// A sequence of `n` zero bytes.
pub open spec fn zeros(n: int) -> Seq<u8> {
    Seq::new(n as nat, |i: int| 0u8)
}

/// Bytes of padding that take `n` up to the next multiple of four.
pub open spec fn pad4(n: int) -> int {
    if n % 4 == 0 {
        0
    } else {
        4 - n % 4
    }
}

/// `n` rounded up to a multiple of four.
pub open spec fn align4(n: int) -> int {
    n + pad4(n)
}

/// Computes the padding that takes `n` up to the next multiple of four.
pub fn pad4_of(n: usize) -> (r: usize)
    requires
        n + 3 <= usize::MAX,
    ensures
        r == pad4(n as int),
{
    if n % 4 == 0 {
        0
    } else {
        4 - n % 4
    }
}

/// Appends `n` zero bytes.
pub fn write_zeros(out: &mut Vec<u8>, n: usize)
    ensures
        final(out)@ == old(out)@ + zeros(n as int),
{
    let mut i: usize = 0;
    while i < n
        invariant
            i <= n,
            out@ == old(out)@ + zeros(i as int),
        decreases n - i,
    {
        out.push(0);
        proof {
            assert(out@ =~= old(out)@ + zeros(i + 1));
        }
        i = i + 1;
    }
}

/// Appends a copy of `src`.
pub fn write_bytes(out: &mut Vec<u8>, src: &Vec<u8>)
    ensures
        final(out)@ == old(out)@ + src@,
{
    let mut i: usize = 0;
    while i < src.len()
        invariant
            i <= src.len(),
            out@ == old(out)@ + src@.subrange(0, i as int),
        decreases src.len() - i,
    {
        out.push(src[i]);
        proof {
            assert(out@ =~= old(out)@ + src@.subrange(0, i + 1));
        }
        i = i + 1;
    }
    proof {
        assert(out@ =~= old(out)@ + src@);
    }
}

/// Copies `n` bytes starting at `pos` into a fresh vector.
pub fn read_bytes(buf: &Vec<u8>, pos: usize, n: usize) -> (r: Vec<u8>)
    requires
        pos + n <= buf.len(),
    ensures
        r@ == buf@.subrange(pos as int, pos + n),
{
    let mut r: Vec<u8> = Vec::new();
    let mut i: usize = 0;
    while i < n
        invariant
            i <= n,
            pos + n <= buf.len(),
            r@ == buf@.subrange(pos as int, pos + i),
        decreases n - i,
    {
        r.push(buf[pos + i]);
        proof {
            assert(r@ =~= buf@.subrange(pos as int, pos + i + 1));
        }
        i = i + 1;
    }
    r
}

/// Finds the first NUL byte at or after `pos`, if any.
pub fn find_nul(buf: &Vec<u8>, pos: usize) -> (r: Option<usize>)
    requires
        pos <= buf.len(),
    ensures
        match r {
            Some(j) => pos <= j < buf.len() && buf@[j as int] == 0 && nul_free(
                buf@.subrange(pos as int, j as int),
            ),
            None => nul_free(buf@.subrange(pos as int, buf.len() as int)),
        },
{
    let mut i: usize = pos;
    while i < buf.len()
        invariant
            pos <= i <= buf.len(),
            nul_free(buf@.subrange(pos as int, i as int)),
        decreases buf.len() - i,
    {
        if buf[i] == 0 {
            return Some(i);
        }
        proof {
            assert(forall|k: int|
                0 <= k < i + 1 - pos ==> #[trigger] buf@.subrange(pos as int, i + 1)[k] == buf@[pos
                    + k]);
        }
        i = i + 1;
    }
    None
}


/// Reading back two bytes that hold the encoding of `v` yields `v`.
pub proof fn lemma_le16_at_of(b: Seq<u8>, i: int, v: u16)
    requires
        0 <= i,
        i + 2 <= b.len(),
        b.subrange(i, i + 2) == u16_bytes(v),
    ensures
        le16_at(b, i) == v,
{
    assert(b[i] == u16_bytes(v)[0]);
    assert(b[i + 1] == u16_bytes(v)[1]);
    lemma_le16_of_bytes(v);
}

/// Reading back four bytes that hold the encoding of `v` yields `v`.
pub proof fn lemma_le32_at_of(b: Seq<u8>, i: int, v: u32)
    requires
        0 <= i,
        i + 4 <= b.len(),
        b.subrange(i, i + 4) == u32_bytes(v),
    ensures
        le32_at(b, i) == v,
{
    assert(b[i] == u32_bytes(v)[0]);
    assert(b[i + 1] == u32_bytes(v)[1]);
    assert(b[i + 2] == u32_bytes(v)[2]);
    assert(b[i + 3] == u32_bytes(v)[3]);
    lemma_le32_of_bytes(v);
}

/// A window of `b` equals the matching window of a larger subrange.
pub proof fn lemma_subrange_sub(b: Seq<u8>, i: int, j: int, k: int, l: int)
    requires
        0 <= i <= j <= b.len(),
        i <= k <= l <= j,
    ensures
        b.subrange(k, l) == b.subrange(i, j).subrange(k - i, l - i),
{
    assert(b.subrange(k, l) =~= b.subrange(i, j).subrange(k - i, l - i));
}
} // verus!
