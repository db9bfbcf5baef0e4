//! Byte-level read and write primitives shared by both codecs.
//!
//! Decoding works over an explicit cursor model: a ghost position `gp` that
//! advances without bound, and an executable position that is `gp` clamped to
//! the buffer length. Reads past the end of the buffer yield zero instead of
//! trapping, so a decoder driven by these primitives is total on truncated or
//! corrupted input.
use vstd::prelude::*;

verus! {

/// The byte of `s` at position `i`; positions outside the buffer read as zero.
pub open spec fn byte_at(s: Seq<u8>, i: int) -> u8 {
    if 0 <= i < s.len() {
        s[i]
    } else {
        0
    }
}

/// A little-endian 32-bit value read at position `i`, with out-of-range
/// bytes reading as zero.
pub open spec fn le32_at(s: Seq<u8>, i: int) -> u32 {
    (byte_at(s, i) as u32) | ((byte_at(s, i + 1) as u32) << 8u32) | ((byte_at(s, i + 2) as u32)
        << 16u32) | ((byte_at(s, i + 3) as u32) << 24u32)
}

/// The executable cursor position that stands for ghost position `p` in a
/// buffer of length `n`: `p` itself while in bounds, else pinned at the end.
pub open spec fn clampi(p: int, n: int) -> int {
    if p <= n {
        p
    } else {
        n
    }
}

/// Bytes of a buffer agree with any extension of it at every position
/// inside the original buffer.
pub proof fn lemma_bytes_prefix(s1: Seq<u8>, s2: Seq<u8>)
    requires
        s1.len() <= s2.len(),
        s2.subrange(0, s1.len() as int) == s1,
    ensures
        forall|j: int| 0 <= j < s1.len() ==> byte_at(s2, j) == byte_at(s1, j),
{
    assert forall|j: int| 0 <= j < s1.len() implies byte_at(s2, j) == byte_at(s1, j) by {
        assert(s2.subrange(0, s1.len() as int)[j] == s2[j]);
    }
}

/// Being a prefix is transitive: a prefix of a prefix is a prefix.
pub proof fn lemma_prefix_trans(s0: Seq<u8>, s1: Seq<u8>, s2: Seq<u8>)
    requires
        s0.len() <= s1.len() <= s2.len(),
        s1.subrange(0, s0.len() as int) == s0,
        s2.subrange(0, s1.len() as int) == s1,
    ensures
        s2.subrange(0, s0.len() as int) == s0,
{
    assert forall|j: int| 0 <= j < s0.len() implies s2.subrange(0, s0.len() as int)[j] == s0[j] by {
        assert(s2.subrange(0, s1.len() as int)[j] == s2[j]);
        assert(s1.subrange(0, s0.len() as int)[j] == s1[j]);
    }
    assert(s2.subrange(0, s0.len() as int) =~= s0);
}

/// Reads one byte at ghost position `gp` and advances the cursor.
pub fn read_byte(buf: &[u8], pos: usize, Ghost(gp): Ghost<int>) -> (r: (u8, usize))
    requires
        0 <= gp,
        pos as int == clampi(gp, buf@.len() as int),
    ensures
        r.0 == byte_at(buf@, gp),
        r.1 as int == clampi(gp + 1, buf@.len() as int),
{
    if pos < buf.len() {
        (buf[pos], pos + 1)
    } else {
        (0, pos)
    }
}

/// Reads the byte at offset `k` from ghost position `gp` without moving the
/// cursor.
pub fn byte_at_ofs(buf: &[u8], pos: usize, Ghost(gp): Ghost<int>, k: usize) -> (b: u8)
    requires
        0 <= gp,
        pos as int == clampi(gp, buf@.len() as int),
    ensures
        b == byte_at(buf@, gp + k),
{
    if pos < buf.len() && k < buf.len() - pos {
        buf[pos + k]
    } else {
        0
    }
}

/// Advances the cursor by `k` bytes, clamping at the end of the buffer.
pub fn skip_bytes(buf: &[u8], pos: usize, Ghost(gp): Ghost<int>, k: usize) -> (r: usize)
    requires
        0 <= gp,
        pos as int == clampi(gp, buf@.len() as int),
    ensures
        r as int == clampi(gp + k, buf@.len() as int),
{
    if k <= buf.len() - pos {
        pos + k
    } else {
        buf.len()
    }
}

/// Reads a little-endian 32-bit value and advances the cursor by four bytes.
pub fn read_u32_le(buf: &[u8], pos: usize, Ghost(gp): Ghost<int>) -> (r: (u32, usize))
    requires
        0 <= gp,
        pos as int == clampi(gp, buf@.len() as int),
    ensures
        r.0 == le32_at(buf@, gp),
        r.1 as int == clampi(gp + 4, buf@.len() as int),
{
    let (b0, pos) = read_byte(buf, pos, Ghost(gp));
    let (b1, pos) = read_byte(buf, pos, Ghost(gp + 1));
    let (b2, pos) = read_byte(buf, pos, Ghost(gp + 2));
    let (b3, pos) = read_byte(buf, pos, Ghost(gp + 3));
    let v = (b0 as u32) | ((b1 as u32) << 8u32) | ((b2 as u32) << 16u32) | ((b3 as u32) << 24u32);
    (v, pos)
}

/// Appends a little-endian 32-bit value to `out`.
pub fn write_u32_le(out: &mut Vec<u8>, d: u32)
    ensures
        final(out)@.len() == old(out)@.len() + 4,
        final(out)@.subrange(0, old(out)@.len() as int) == old(out)@,
        le32_at(final(out)@, old(out)@.len() as int) == d,
{
    let b0 = (d & 0xff) as u8;
    let b1 = ((d >> 8u32) & 0xff) as u8;
    let b2 = ((d >> 16u32) & 0xff) as u8;
    let b3 = ((d >> 24u32) & 0xff) as u8;
    out.push(b0);
    out.push(b1);
    out.push(b2);
    out.push(b3);
    proof {
        assert(out@.subrange(0, old(out)@.len() as int) =~= old(out)@);
        let n = old(out)@.len() as int;
        assert(byte_at(out@, n) == b0 && byte_at(out@, n + 1) == b1 && byte_at(out@, n + 2) == b2
            && byte_at(out@, n + 3) == b3);
        assert((((d & 0xff) as u8) as u32) | (((((d >> 8u32) & 0xff) as u8) as u32) << 8u32) | ((((
        (d >> 16u32) & 0xff) as u8) as u32) << 16u32) | (((((d >> 24u32) & 0xff) as u8) as u32)
            << 24u32) == d) by (bit_vector);
    }
}

} // verus!
