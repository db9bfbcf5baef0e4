//! Fixed-stride vertex record codec.
//!
//! Records are processed in blocks of up to sixteen. Within a block each
//! byte position of the record — a channel — is delta coded against the same
//! channel of the previous record (a zero record before the first block) and
//! the deltas are bit-packed with a per-channel width chosen from the ladder
//! zero, two, four or eight bits, announced by a selector byte whose low two
//! bits name the rung. A zero-bit rung carries no payload; the eight-bit
//! rung stores the deltas as literal bytes.
//!
//! As with the index codec, the decoder's behaviour on every input is pinned
//! by the specification function [`sd_vertex_blob`]; reads past the end of
//! the buffer yield zero, so decoding is total once the two header bytes
//! (version tag and record width) have been accepted.
use vstd::prelude::*;

use crate::bytes::byte_at;
use crate::bytes::byte_at_ofs;
use crate::bytes::clampi;
use crate::bytes::read_byte;
use crate::bytes::skip_bytes;
use crate::CodecError;

verus! {

/// Version tag written as the first byte of every encoded vertex blob.
pub const VERTEX_VERSION: u8 = 1;

/// The bit width named by a selector byte; only its low two bits count.
pub open spec fn sel_bits(b: u8) -> nat {
    if b % 4 == 0 {
        0
    } else if b % 4 == 1 {
        2
    } else if b % 4 == 2 {
        4
    } else {
        8
    }
}

/// Payload bytes needed to pack `r` deltas of the given width.
pub open spec fn payload_len(bits: nat, r: nat) -> int {
    if bits == 0 {
        0int
    } else if bits == 2 {
        ((r + 3) / 4) as int
    } else if bits == 4 {
        ((r + 1) / 2) as int
    } else {
        r as int
    }
}

/// The `j`-th delta of a packed channel whose payload starts at `base`.
pub open spec fn delta_at(s: Seq<u8>, base: int, bits: nat, j: int) -> u8 {
    if bits == 0 {
        0u8
    } else if bits == 2 {
        (byte_at(s, base + j / 4) >> ((2 * (j % 4)) as u8)) & 3
    } else if bits == 4 {
        (byte_at(s, base + j / 2) >> ((4 * (j % 2)) as u8)) & 15
    } else {
        byte_at(s, base + j)
    }
}

/// The decoded value of record `j` in one channel: the previous record's
/// byte plus the accumulated wrapping deltas.
pub open spec fn col_val(s: Seq<u8>, base: int, bits: nat, prev: u8, j: nat) -> u8
    decreases j,
{
    if j == 0 {
        prev.wrapping_add(delta_at(s, base, bits, 0))
    } else {
        col_val(s, base, bits, prev, (j - 1) as nat).wrapping_add(delta_at(s, base, bits, j as int))
    }
}

/// Decodes the first `ch` channels of a block of `r` records, returning the
/// column-major decoded bytes (channel `c`'s column at `c * r`) and the end
/// position.
pub open spec fn sd_chans(s: Seq<u8>, i: int, prev: Seq<u8>, r: nat, ch: nat) -> (Seq<u8>, int)
    decreases ch,
{
    if ch == 0 {
        (Seq::empty(), i)
    } else {
        let p = sd_chans(s, i, prev, r, (ch - 1) as nat);
        let bits = sel_bits(byte_at(s, p.1));
        let base = p.1 + 1;
        let col = Seq::new(r, |j: int| col_val(s, base, bits, prev[ch - 1], j as nat));
        (p.0 + col, base + payload_len(bits, r))
    }
}

/// Reorders a block's column-major bytes into record order.
pub open spec fn block_records(cols: Seq<u8>, w: nat, r: nat) -> Seq<u8> {
    Seq::new(r * w, |k: int| cols[(k % (w as int)) * (r as int) + k / (w as int)])
}

/// Decodes one block of `r` records: the records in record order, the end
/// position, and the block's final record, which seeds the next block.
pub open spec fn sd_block(s: Seq<u8>, i: int, prev: Seq<u8>, w: nat, r: nat) -> (
    Seq<u8>,
    int,
    Seq<u8>,
) {
    let p = sd_chans(s, i, prev, r, w);
    (
        block_records(p.0, w, r),
        p.1,
        Seq::new(w as nat, |ch: int| p.0[ch * (r as int) + r as int - 1]),
    )
}

/// The all-zero record that seeds the first block.
pub open spec fn zero_rec(w: nat) -> Seq<u8> {
    Seq::new(w, |i: int| 0u8)
}

/// Decodes `n` records of width `w` starting at position `i`: the flattened
/// records, the end position, and the last decoded record.
pub open spec fn sd_vblocks(s: Seq<u8>, i: int, w: nat, n: nat) -> (Seq<u8>, int, Seq<u8>)
    decreases n,
{
    if n == 0 {
        (Seq::empty(), i, zero_rec(w))
    } else {
        let m = if n % 16 == 0 {
            (n - 16) as nat
        } else {
            (n - (n % 16)) as nat
        };
        let p = sd_vblocks(s, i, w, m);
        let b = sd_block(s, p.1, p.2, w, (n - m) as nat);
        (p.0 + b.0, b.1, b.2)
    }
}

/// The whole decoder: `None` exactly when the two header bytes are missing,
/// the version tag is unknown, or the stored record width does not match the
/// caller's; otherwise the `n * w` record bytes the block replay yields.
pub open spec fn sd_vertex_blob(s: Seq<u8>, vertex_count: nat, vertex_size: nat) -> Option<
    Seq<u8>,
> {
    if s.len() < 2 || s[0] != VERTEX_VERSION || s[1] != (vertex_size - 1) as u8 {
        None
    } else {
        Some(sd_vblocks(s, 2, vertex_size, vertex_count).0)
    }
}

/// Worst-case encoded size for `n` records of `w` bytes: two header bytes
/// plus, per block, a selector byte and a full literal payload per channel.
pub open spec fn vertex_bytes_bound(n: nat, w: nat) -> int {
    2 + ((n + 15) / 16) * (17int * w)
}

/// The overflow-free condition under which encoding succeeds.
pub open spec fn vertex_encode_fits(n: nat, w: nat) -> bool {
    n + 15 <= usize::MAX && ((n + 15) / 16) * (17 * w) <= usize::MAX - 2
}

/// Decodes one channel of a block: reads the selector byte at `gp`, unpacks
/// `r` deltas, and pushes the accumulated column values.
fn decode_column(
    buf: &[u8],
    pos: usize,
    Ghost(gp): Ghost<int>,
    prev_byte: u8,
    r: usize,
    cols: &mut Vec<u8>,
) -> (rpos: usize)
    requires
        0 <= gp,
        pos as int == clampi(gp, buf@.len() as int),
        1 <= r <= 16,
    ensures
        ({
            let bits = sel_bits(byte_at(buf@, gp));
            let base = gp + 1;
            final(cols)@ == old(cols)@ + Seq::new(
                r as nat,
                |j: int| col_val(buf@, base, bits, prev_byte, j as nat),
            ) && rpos as int == clampi(base + payload_len(bits, r as nat), buf@.len() as int)
        }),
{
    let (selb, pos2) = read_byte(buf, pos, Ghost(gp));
    let sel = selb & 3;
    proof {
        assert(selb & 3 == selb % 4) by (bit_vector);
    }
    let ghost bits = sel_bits(byte_at(buf@, gp));
    let ghost base = gp + 1;
    let mut cur = prev_byte;
    let mut j: usize = 0;
    while j < r
        invariant
            0 <= gp,
            pos2 as int == clampi(gp + 1, buf@.len() as int),
            1 <= r <= 16,
            j <= r,
            sel == byte_at(buf@, gp) % 4,
            bits == sel_bits(byte_at(buf@, gp)),
            base == gp + 1,
            cols@ == old(cols)@ + Seq::new(
                j as nat,
                |jj: int| col_val(buf@, base, bits, prev_byte, jj as nat),
            ),
            j == 0 ==> cur == prev_byte,
            j > 0 ==> cur == col_val(buf@, base, bits, prev_byte, (j - 1) as nat),
        decreases r - j,
    {
        let d: u8 = if sel == 0 {
            0
        } else if sel == 1 {
            (byte_at_ofs(buf, pos2, Ghost(gp + 1), j / 4) >> ((2 * (j % 4)) as u8)) & 3
        } else if sel == 2 {
            (byte_at_ofs(buf, pos2, Ghost(gp + 1), j / 2) >> ((4 * (j % 2)) as u8)) & 15
        } else {
            byte_at_ofs(buf, pos2, Ghost(gp + 1), j)
        };
        proof {
            assert(d == delta_at(buf@, base, bits, j as int));
        }
        cur = cur.wrapping_add(d);
        cols.push(cur);
        proof {
            assert(cur == col_val(buf@, base, bits, prev_byte, j as nat));
            assert(Seq::new(
                (j + 1) as nat,
                |jj: int| col_val(buf@, base, bits, prev_byte, jj as nat),
            ) =~= Seq::new(j as nat, |jj: int| col_val(buf@, base, bits, prev_byte, jj as nat)).push(
                col_val(buf@, base, bits, prev_byte, j as nat),
            ));
        }
        j += 1;
    }
    let pl: usize = if sel == 0 {
        0
    } else if sel == 1 {
        (r + 3) / 4
    } else if sel == 2 {
        (r + 1) / 2
    } else {
        r
    };
    skip_bytes(buf, pos2, Ghost(gp + 1), pl)
}

/// Decodes one block of `r` records onto the end of `out`, returning the new
/// cursor position and the block's final record.
fn decode_block(
    buf: &[u8],
    pos: usize,
    Ghost(gp): Ghost<int>,
    prev: &Vec<u8>,
    r: usize,
    out: &mut Vec<u8>,
) -> (res: (usize, Vec<u8>))
    requires
        0 <= gp,
        pos as int == clampi(gp, buf@.len() as int),
        1 <= r <= 16,
        1 <= prev@.len() <= 256,
        old(out)@.len() + r * prev@.len() <= usize::MAX,
    ensures
        ({
            let b = sd_block(buf@, gp, prev@, prev@.len(), r as nat);
            final(out)@ == old(out)@ + b.0 && res.0 as int == clampi(b.1, buf@.len() as int)
                && res.1@ == b.2 && res.1@.len() == prev@.len() && final(out)@.len() == old(
                out,
            )@.len() + r * prev@.len()
        }),
{
    let w = prev.len();
    let mut cols: Vec<u8> = Vec::new();
    let mut ch: usize = 0;
    let mut pos2 = pos;
    let ghost mut gp2: int = gp;
    while ch < w
        invariant
            0 <= gp2,
            pos2 as int == clampi(gp2, buf@.len() as int),
            1 <= r <= 16,
            w == prev@.len(),
            1 <= w <= 256,
            ch <= w,
            cols@.len() == ch * r,
            sd_chans(buf@, gp, prev@, r as nat, ch as nat) == (cols@, gp2),
        decreases w - ch,
    {
        let ghost pre_cols = cols@;
        let pb = prev[ch];
        let npos = decode_column(buf, pos2, Ghost(gp2), pb, r, &mut cols);
        pos2 = npos;
        proof {
            let bits = sel_bits(byte_at(buf@, gp2));
            gp2 = gp2 + 1 + payload_len(bits, r as nat);
            assert((ch + 1) * r == ch * r + r) by (nonlinear_arith);
            assert(sd_chans(buf@, gp, prev@, r as nat, (ch + 1) as nat) == (cols@, gp2));
        }
        ch += 1;
    }
    let ghost colsfix = cols@;
    let mut j: usize = 0;
    while j < r
        invariant
            j <= r,
            1 <= r <= 16,
            1 <= w <= 256,
            cols@ == colsfix,
            cols@.len() == w * r,
            out@.len() == old(out)@.len() + j * w,
            out@ == old(out)@ + Seq::new((j * w) as nat, |k: int| block_records(colsfix, w as nat, r as nat)[k]),
        decreases r - j,
    {
        let mut c2: usize = 0;
        while c2 < w
            invariant
                j < r,
                c2 <= w,
                1 <= r <= 16,
                1 <= w <= 256,
                cols@ == colsfix,
                cols@.len() == w * r,
                out@.len() == old(out)@.len() + j * w + c2,
                out@ == old(out)@ + Seq::new(
                    (j * w + c2) as nat,
                    |k: int| block_records(colsfix, w as nat, r as nat)[k],
                ),
            decreases w - c2,
        {
            proof {
                assert(c2 * r + j < w * r && c2 * r + j <= 4096 && j * w + c2 < r * w) by (nonlinear_arith)
                    requires
                        c2 < w,
                        j < r,
                        0 <= j,
                        0 <= c2,
                        0 < r <= 16,
                        0 < w <= 256,
                ;
            }
            let v = cols[c2 * r + j];
            out.push(v);
            proof {
                let k = j * w + c2;
                vstd::arithmetic::div_mod::lemma_fundamental_div_mod_converse(
                    k as int,
                    w as int,
                    j as int,
                    c2 as int,
                );
                assert(block_records(colsfix, w as nat, r as nat)[k as int] == colsfix[(c2 * r + j) as int]);
                assert(Seq::new(
                    (k + 1) as nat,
                    |kk: int| block_records(colsfix, w as nat, r as nat)[kk],
                ) =~= Seq::new(k as nat, |kk: int| block_records(colsfix, w as nat, r as nat)[kk]).push(
                    block_records(colsfix, w as nat, r as nat)[k as int],
                ));
                assert(out@ == old(out)@ + Seq::new(
                    (k + 1) as nat,
                    |kk: int| block_records(colsfix, w as nat, r as nat)[kk],
                ));
            }
            c2 += 1;
        }
        proof {
            assert((j + 1) * w == j * w + w) by (nonlinear_arith);
        }
        j += 1;
    }
    let mut newprev: Vec<u8> = Vec::new();
    let mut c3: usize = 0;
    while c3 < w
        invariant
            c3 <= w,
            1 <= r <= 16,
            1 <= w <= 256,
            cols@ == colsfix,
            cols@.len() == w * r,
            newprev@.len() == c3,
            forall|cc: int| 0 <= cc < c3 ==> newprev@[cc] == colsfix[cc * (r as int) + r - 1],
        decreases w - c3,
    {
        proof {
            assert(c3 * r + (r - 1) < w * r && c3 * r + (r - 1) <= 4096) by (nonlinear_arith)
                requires
                    c3 < w,
                    0 <= c3,
                    0 < r <= 16,
                    0 < w <= 256,
            ;
        }
        let v = cols[c3 * r + (r - 1)];
        newprev.push(v);
        c3 += 1;
    }
    proof {
        let b = sd_block(buf@, gp, prev@, prev@.len(), r as nat);
        assert(out@ == old(out)@ + b.0) by {
            assert(Seq::new(
                (r * w) as nat,
                |k: int| block_records(colsfix, w as nat, r as nat)[k],
            ) =~= block_records(colsfix, w as nat, r as nat));
        }
        assert(newprev@ =~= b.2);
    }
    (pos2, newprev)
}

/// Decodes vertex data produced by [`encode_vertex_buffer`].
///
/// The decoder is safe on untrusted input: it never reads out of bounds,
/// always terminates, and returns either a header error (missing or unknown
/// version tag, or a stored record width that does not match `vertex_size`)
/// or exactly `vertex_count * vertex_size` record bytes, which replay of the
/// block format pins down byte for byte.
pub fn decode_vertex_buffer(encoded: &[u8], vertex_count: usize, vertex_size: usize) -> (r: Result<
    Vec<u8>,
    CodecError,
>)
    requires
        1 <= vertex_size <= 256,
        vertex_count * vertex_size <= usize::MAX,
    ensures
        r is Ok <==> sd_vertex_blob(encoded@, vertex_count as nat, vertex_size as nat) is Some,
        (r matches Ok(v) ==> Some(v@) == sd_vertex_blob(
            encoded@,
            vertex_count as nat,
            vertex_size as nat,
        ) && v@.len() == vertex_count * vertex_size),
        r is Err ==> r == Err::<Vec<u8>, CodecError>(CodecError::InvalidHeader),
{
    if encoded.len() < 2 {
        return Err(CodecError::InvalidHeader);
    }
    if encoded[0] != VERTEX_VERSION {
        return Err(CodecError::InvalidHeader);
    }
    if encoded[1] != (vertex_size - 1) as u8 {
        return Err(CodecError::InvalidHeader);
    }
    let w = vertex_size;
    let mut prev: Vec<u8> = Vec::new();
    let mut i: usize = 0;
    while i < w
        invariant
            i <= w,
            prev@.len() == i,
            forall|j: int| 0 <= j < i ==> prev@[j] == 0u8,
        decreases w - i,
    {
        prev.push(0);
        i += 1;
    }
    proof {
        assert(prev@ =~= zero_rec(w as nat));
    }
    let mut out: Vec<u8> = Vec::new();
    let mut pos: usize = 2;
    let ghost mut gp: int = 2;
    let mut done: usize = 0;
    while done < vertex_count
        invariant
            0 <= gp,
            pos as int == clampi(gp, encoded@.len() as int),
            1 <= w <= 256,
            w == vertex_size,
            vertex_count * vertex_size <= usize::MAX,
            done <= vertex_count,
            done % 16 == 0 || done == vertex_count,
            prev@.len() == w,
            out@.len() == done * w,
            sd_vblocks(encoded@, 2, w as nat, done as nat) == (out@, gp, prev@),
        decreases vertex_count - done,
    {
        let r = if vertex_count - done >= 16 {
            16
        } else {
            vertex_count - done
        };
        proof {
            assert((done + r) * w <= vertex_count * w) by (nonlinear_arith)
                requires
                    done + r <= vertex_count,
                    0 < w,
            ;
            assert(done * w + r * w == (done + r) * w) by (nonlinear_arith);
        }
        let ghost pre_prev = prev@;
        let (npos, nprev) = decode_block(encoded, pos, Ghost(gp), &prev, r, &mut out);
        pos = npos;
        prev = nprev;
        proof {
            let b = sd_block(encoded@, gp, pre_prev, w as nat, r as nat);
            gp = b.1;
            assert(sd_vblocks(encoded@, 2, w as nat, (done + r) as nat) == (out@, gp, prev@));
        }
        done = done + r;
    }
    proof {
        assert(out@.len() == vertex_count * vertex_size);
    }
    Ok(out)
}

/// Extending the byte buffer does not change a packed delta that lies
/// inside the original buffer.
pub proof fn lemma_delta_prefix(s1: Seq<u8>, s2: Seq<u8>, base: int, bits: nat, r: nat, j: int)
    requires
        0 <= base,
        0 <= j < r,
        s1.len() <= s2.len(),
        s2.subrange(0, s1.len() as int) == s1,
        base + payload_len(bits, r) <= s1.len(),
    ensures
        delta_at(s2, base, bits, j) == delta_at(s1, base, bits, j),
{
    crate::bytes::lemma_bytes_prefix(s1, s2);
    if bits == 0 {
    } else if bits == 2 {
        vstd::arithmetic::div_mod::lemma_div_is_ordered(j, r - 1, 4);
        vstd::arithmetic::div_mod::lemma_div_plus_one(r - 1, 4);
        assert(base + j / 4 < s1.len());
    } else if bits == 4 {
        vstd::arithmetic::div_mod::lemma_div_is_ordered(j, r - 1, 2);
        vstd::arithmetic::div_mod::lemma_div_plus_one(r - 1, 2);
        assert(base + j / 2 < s1.len());
    } else {
        assert(base + j < s1.len());
    }
}

/// Extending the byte buffer does not change a decoded column value whose
/// payload lies inside the original buffer.
pub proof fn lemma_col_prefix(
    s1: Seq<u8>,
    s2: Seq<u8>,
    base: int,
    bits: nat,
    prev: u8,
    r: nat,
    j: nat,
)
    requires
        0 <= base,
        j < r,
        s1.len() <= s2.len(),
        s2.subrange(0, s1.len() as int) == s1,
        base + payload_len(bits, r) <= s1.len(),
    ensures
        col_val(s2, base, bits, prev, j) == col_val(s1, base, bits, prev, j),
    decreases j,
{
    lemma_delta_prefix(s1, s2, base, bits, r, j as int);
    if j > 0 {
        lemma_col_prefix(s1, s2, base, bits, prev, r, (j - 1) as nat);
    }
}

pub proof fn lemma_sd_chans_mono(s: Seq<u8>, i: int, prev: Seq<u8>, r: nat, ch: nat)
    ensures
        sd_chans(s, i, prev, r, ch).1 >= i,
    decreases ch,
{
    if ch > 0 {
        lemma_sd_chans_mono(s, i, prev, r, (ch - 1) as nat);
    }
}

/// Extending the byte buffer does not change a block-channel decode that
/// ended inside the original buffer.
pub proof fn lemma_sd_chans_prefix(s1: Seq<u8>, s2: Seq<u8>, i: int, prev: Seq<u8>, r: nat, ch: nat)
    requires
        0 <= i,
        s1.len() <= s2.len(),
        s2.subrange(0, s1.len() as int) == s1,
        sd_chans(s1, i, prev, r, ch).1 <= s1.len(),
    ensures
        sd_chans(s2, i, prev, r, ch) == sd_chans(s1, i, prev, r, ch),
    decreases ch,
{
    if ch > 0 {
        let p = sd_chans(s1, i, prev, r, (ch - 1) as nat);
        let bits = sel_bits(byte_at(s1, p.1));
        lemma_sd_chans_mono(s1, i, prev, r, (ch - 1) as nat);
        assert(payload_len(bits, r) >= 0);
        lemma_sd_chans_prefix(s1, s2, i, prev, r, (ch - 1) as nat);
        crate::bytes::lemma_bytes_prefix(s1, s2);
        assert(byte_at(s2, p.1) == byte_at(s1, p.1));
        assert forall|j: int| 0 <= j < r implies #[trigger] col_val(
            s2,
            p.1 + 1,
            bits,
            prev[ch - 1],
            j as nat,
        ) == col_val(s1, p.1 + 1, bits, prev[ch - 1], j as nat) by {
            lemma_col_prefix(s1, s2, p.1 + 1, bits, prev[ch - 1], r, j as nat);
        }
        assert(Seq::new(r, |j: int| col_val(s2, p.1 + 1, bits, prev[ch - 1], j as nat)) =~= Seq::new(
            r,
            |j: int| col_val(s1, p.1 + 1, bits, prev[ch - 1], j as nat),
        ));
    }
}

/// Extending the byte buffer does not change a block decode that ended
/// inside the original buffer.
pub proof fn lemma_sd_block_prefix(s1: Seq<u8>, s2: Seq<u8>, i: int, prev: Seq<u8>, w: nat, r: nat)
    requires
        0 <= i,
        s1.len() <= s2.len(),
        s2.subrange(0, s1.len() as int) == s1,
        sd_block(s1, i, prev, w, r).1 <= s1.len(),
    ensures
        sd_block(s2, i, prev, w, r) == sd_block(s1, i, prev, w, r),
{
    lemma_sd_chans_prefix(s1, s2, i, prev, r, w);
}

pub proof fn lemma_sd_vblocks_mono(s: Seq<u8>, i: int, w: nat, n: nat)
    ensures
        sd_vblocks(s, i, w, n).1 >= i,
    decreases n,
{
    if n > 0 {
        let m = if n % 16 == 0 {
            (n - 16) as nat
        } else {
            (n - (n % 16)) as nat
        };
        let p = sd_vblocks(s, i, w, m);
        lemma_sd_vblocks_mono(s, i, w, m);
        lemma_sd_chans_mono(s, p.1, p.2, (n - m) as nat, w);
    }
}

/// Extending the byte buffer does not change a record-stream decode that
/// ended inside the original buffer.
pub proof fn lemma_sd_vblocks_prefix(s1: Seq<u8>, s2: Seq<u8>, i: int, w: nat, n: nat)
    requires
        0 <= i,
        s1.len() <= s2.len(),
        s2.subrange(0, s1.len() as int) == s1,
        sd_vblocks(s1, i, w, n).1 <= s1.len(),
    ensures
        sd_vblocks(s2, i, w, n) == sd_vblocks(s1, i, w, n),
    decreases n,
{
    if n > 0 {
        let m = if n % 16 == 0 {
            (n - 16) as nat
        } else {
            (n - (n % 16)) as nat
        };
        let p = sd_vblocks(s1, i, w, m);
        lemma_sd_vblocks_mono(s1, i, w, m);
        lemma_sd_chans_mono(s1, p.1, p.2, (n - m) as nat, w);
        lemma_sd_vblocks_prefix(s1, s2, i, w, m);
        lemma_sd_block_prefix(s1, s2, p.1, p.2, w, (n - m) as nat);
    }
}

/// Accumulating the stored deltas of a column reproduces the original
/// record bytes: the wrapping subtraction at encode time cancels against
/// the wrapping addition at decode time.
pub proof fn lemma_col_roundtrip(
    s: Seq<u8>,
    base: int,
    bits: nat,
    prev: u8,
    vals: Seq<u8>,
    j: int,
)
    requires
        0 <= j < vals.len(),
        forall|jj: int| 0 <= jj <= j ==> delta_at(s, base, bits, jj) == vals[jj].wrapping_sub(
            if jj == 0 {
                prev
            } else {
                vals[jj - 1]
            },
        ),
    ensures
        col_val(s, base, bits, prev, j as nat) == vals[j],
    decreases j,
{
    if j == 0 {
        assert(prev.wrapping_add(vals[0].wrapping_sub(prev)) == vals[0]);
    } else {
        lemma_col_roundtrip(s, base, bits, prev, vals, j - 1);
        assert(vals[j - 1].wrapping_add(vals[j].wrapping_sub(vals[j - 1])) == vals[j]);
    }
}

/// The byte of record `p + j`, channel `ch`, in a flat record buffer of
/// width `w`; out-of-range positions read as zero.
pub open spec fn vcol(vs: Seq<u8>, w: int, p: int, ch: int, j: int) -> u8 {
    if 0 <= (p + j) * w + ch < vs.len() {
        vs[(p + j) * w + ch]
    } else {
        0u8
    }
}

/// The column-major bytes of the first `ch` channels of the block of `r`
/// records starting at record `p`.
pub open spec fn colspec(vs: Seq<u8>, w: int, p: int, r: int, ch: int) -> Seq<u8> {
    Seq::new((ch * r) as nat, |idx: int| vcol(vs, w, p, idx / r, idx % r))
}

spec fn dtsv(d: Seq<u8>, j: int) -> u8 {
    if 0 <= j < d.len() {
        d[j]
    } else {
        0u8
    }
}

spec fn pack4(d: Seq<u8>, g: int) -> u8 {
    dtsv(d, 4 * g) | (dtsv(d, 4 * g + 1) << 2u8) | (dtsv(d, 4 * g + 2) << 4u8) | (dtsv(
        d,
        4 * g + 3,
    ) << 6u8)
}

spec fn pack2(d: Seq<u8>, g: int) -> u8 {
    dtsv(d, 2 * g) | (dtsv(d, 2 * g + 1) << 4u8)
}

/// Encodes one channel of a block: chooses the smallest rung of the ladder
/// that covers every delta, writes the selector byte and the packed
/// payload.
fn encode_column(out: &mut Vec<u8>, verts: &[u8], w: usize, p: usize, r: usize, ch: usize, prev_byte: u8)
    requires
        1 <= r <= 16,
        1 <= w <= 256,
        ch < w,
        (p + r) * w <= verts@.len(),
    ensures
        old(out)@.len() + 1 <= final(out)@.len() <= old(out)@.len() + 1 + r,
        final(out)@.subrange(0, old(out)@.len() as int) == old(out)@,
        ({
            let bits = sel_bits(byte_at(final(out)@, old(out)@.len() as int));
            let base = old(out)@.len() + 1;
            final(out)@.len() == base + payload_len(bits, r as nat) && (forall|j: int|
                0 <= j < r ==> col_val(final(out)@, base as int, bits, prev_byte, j as nat) == vcol(
                    verts@,
                    w as int,
                    p as int,
                    ch as int,
                    j,
                ))
        }),
{
    let ghost n0 = out@.len() as int;
    let vlen = verts.len();
    let mut dts: Vec<u8> = Vec::new();
    let mut lastb = prev_byte;
    let mut j: usize = 0;
    while j < r
        invariant
            j <= r,
            1 <= r <= 16,
            1 <= w <= 256,
            ch < w,
            vlen == verts@.len(),
            (p + r) * w <= verts@.len(),
            dts@.len() == j,
            forall|jj: int| 0 <= jj < j ==> dts@[jj] == vcol(
                verts@,
                w as int,
                p as int,
                ch as int,
                jj,
            ).wrapping_sub(
                if jj == 0 {
                    prev_byte
                } else {
                    vcol(verts@, w as int, p as int, ch as int, jj - 1)
                },
            ),
            lastb == (if j == 0 {
                prev_byte
            } else {
                vcol(verts@, w as int, p as int, ch as int, j - 1)
            }),
        decreases r - j,
    {
        proof {
            assert((p + j) * w + ch < (p + r) * w && p + r <= (p + r) * w) by (nonlinear_arith)
                requires
                    j < r,
                    ch < w,
                    0 <= j,
                    0 <= ch,
                    0 <= p,
                    0 < w,
            ;
        }
        let v = verts[(p + j) * w + ch];
        dts.push(v.wrapping_sub(lastb));
        lastb = v;
        j += 1;
    }
    let ghost dseq = dts@;
    let mut mx: u8 = 0;
    let mut j2: usize = 0;
    while j2 < r
        invariant
            j2 <= r,
            dts@ == dseq,
            dseq.len() == r,
            forall|jj: int| 0 <= jj < j2 ==> dseq[jj] <= mx,
        decreases r - j2,
    {
        if dts[j2] > mx {
            mx = dts[j2];
        }
        j2 += 1;
    }
    let sel: u8 = if mx == 0 {
        0
    } else if mx < 4 {
        1
    } else if mx < 16 {
        2
    } else {
        3
    };
    out.push(sel);
    let ghost pre1 = out@;
    let ghost base = n0 + 1;
    let ghost bits = sel_bits(sel);
    if sel == 1 {
        let gmax = (r + 3) / 4;
        let mut g: usize = 0;
        while g < gmax
            invariant
                g <= gmax,
                gmax == (r + 3) / 4,
                1 <= r <= 16,
                dts@ == dseq,
                dseq.len() == r,
                base == n0 + 1,
                pre1.len() == base,
                out@.len() == base + g,
                out@.subrange(0, base) == pre1,
                forall|jj: int| 0 <= jj < r ==> dseq[jj] < 4,
                forall|g2: int| 0 <= g2 < g ==> byte_at(out@, base + g2) == pack4(dseq, g2),
            decreases gmax - g,
        {
            proof {
                vstd::arithmetic::div_mod::lemma_div_plus_one(r - 1, 4);
                assert(4 * g < r);
            }
            let d0 = dts[4 * g];
            let d1 = if 4 * g + 1 < r {
                dts[4 * g + 1]
            } else {
                0
            };
            let d2 = if 4 * g + 2 < r {
                dts[4 * g + 2]
            } else {
                0
            };
            let d3 = if 4 * g + 3 < r {
                dts[4 * g + 3]
            } else {
                0
            };
            let bv = d0 | (d1 << 2u8) | (d2 << 4u8) | (d3 << 6u8);
            out.push(bv);
            proof {
                assert(out@.subrange(0, base) =~= pre1);
                assert(bv == pack4(dseq, g as int));
            }
            g += 1;
        }
        proof {
            assert forall|jx: int| 0 <= jx < r implies delta_at(out@, base, 2nat, jx) == dseq[jx] by {
                let g2 = jx / 4;
                let l = jx % 4;
                vstd::arithmetic::div_mod::lemma_div_plus_one(r - 1, 4);
                vstd::arithmetic::div_mod::lemma_div_is_ordered(jx, r - 1, 4);
                vstd::arithmetic::div_mod::lemma_fundamental_div_mod(jx, 4);
                assert(byte_at(out@, base + g2) == pack4(dseq, g2));
                let a = dtsv(dseq, 4 * g2);
                let b = dtsv(dseq, 4 * g2 + 1);
                let c = dtsv(dseq, 4 * g2 + 2);
                let e = dtsv(dseq, 4 * g2 + 3);
                if l == 0 {
                    assert(((a | (b << 2u8) | (c << 4u8) | (e << 6u8)) >> 0u8) & 3 == a)
                        by (bit_vector)
                        requires
                            a < 4,
                            b < 4,
                            c < 4,
                            e < 4,
                    ;
                } else if l == 1 {
                    assert(((a | (b << 2u8) | (c << 4u8) | (e << 6u8)) >> 2u8) & 3 == b)
                        by (bit_vector)
                        requires
                            a < 4,
                            b < 4,
                            c < 4,
                            e < 4,
                    ;
                } else if l == 2 {
                    assert(((a | (b << 2u8) | (c << 4u8) | (e << 6u8)) >> 4u8) & 3 == c)
                        by (bit_vector)
                        requires
                            a < 4,
                            b < 4,
                            c < 4,
                            e < 4,
                    ;
                } else {
                    assert(((a | (b << 2u8) | (c << 4u8) | (e << 6u8)) >> 6u8) & 3 == e)
                        by (bit_vector)
                        requires
                            a < 4,
                            b < 4,
                            c < 4,
                            e < 4,
                    ;
                }
            }
        }
    } else if sel == 2 {
        let gmax = (r + 1) / 2;
        let mut g: usize = 0;
        while g < gmax
            invariant
                g <= gmax,
                gmax == (r + 1) / 2,
                1 <= r <= 16,
                dts@ == dseq,
                dseq.len() == r,
                base == n0 + 1,
                pre1.len() == base,
                out@.len() == base + g,
                out@.subrange(0, base) == pre1,
                forall|jj: int| 0 <= jj < r ==> dseq[jj] < 16,
                forall|g2: int| 0 <= g2 < g ==> byte_at(out@, base + g2) == pack2(dseq, g2),
            decreases gmax - g,
        {
            proof {
                vstd::arithmetic::div_mod::lemma_div_plus_one(r - 1, 2);
                assert(2 * g < r);
            }
            let d0 = dts[2 * g];
            let d1 = if 2 * g + 1 < r {
                dts[2 * g + 1]
            } else {
                0
            };
            let bv = d0 | (d1 << 4u8);
            out.push(bv);
            proof {
                assert(out@.subrange(0, base) =~= pre1);
                assert(bv == pack2(dseq, g as int));
            }
            g += 1;
        }
        proof {
            assert forall|jx: int| 0 <= jx < r implies delta_at(out@, base, 4nat, jx) == dseq[jx] by {
                let g2 = jx / 2;
                let l = jx % 2;
                vstd::arithmetic::div_mod::lemma_div_plus_one(r - 1, 2);
                vstd::arithmetic::div_mod::lemma_div_is_ordered(jx, r - 1, 2);
                vstd::arithmetic::div_mod::lemma_fundamental_div_mod(jx, 2);
                assert(byte_at(out@, base + g2) == pack2(dseq, g2));
                let a = dtsv(dseq, 2 * g2);
                let b = dtsv(dseq, 2 * g2 + 1);
                if l == 0 {
                    assert(((a | (b << 4u8)) >> 0u8) & 15 == a) by (bit_vector)
                        requires
                            a < 16,
                            b < 16,
                    ;
                } else {
                    assert(((a | (b << 4u8)) >> 4u8) & 15 == b) by (bit_vector)
                        requires
                            a < 16,
                            b < 16,
                    ;
                }
            }
        }
    } else if sel == 3 {
        let mut g: usize = 0;
        while g < r
            invariant
                g <= r,
                1 <= r <= 16,
                dts@ == dseq,
                dseq.len() == r,
                base == n0 + 1,
                pre1.len() == base,
                out@.len() == base + g,
                out@.subrange(0, base) == pre1,
                forall|jj: int| 0 <= jj < g ==> byte_at(out@, base + jj) == dseq[jj],
            decreases r - g,
        {
            let d = dts[g];
            out.push(d);
            proof {
                assert(out@.subrange(0, base) =~= pre1);
            }
            g += 1;
        }
        proof {
            assert(forall|jx: int| 0 <= jx < r ==> delta_at(out@, base, 8nat, jx) == dseq[jx]);
        }
    } else {
        proof {
            assert(forall|jx: int| 0 <= jx < r ==> dseq[jx] == 0);
            assert(forall|jx: int| 0 <= jx < r ==> delta_at(out@, base, 0nat, jx) == dseq[jx]);
        }
    }
    proof {
        assert(out@.subrange(0, base)[n0] == out@[n0]);
        assert(byte_at(out@, n0) == sel);
        assert(sel % 4 == sel);
        assert(bits == sel_bits(byte_at(out@, n0)));
        assert(out@.subrange(0, n0) =~= old(out)@) by {
            assert forall|jj: int| 0 <= jj < n0 implies out@.subrange(0, n0)[jj] == old(out)@[jj] by {
                assert(out@.subrange(0, base)[jj] == out@[jj]);
            }
        }
        let vals = Seq::new(r as nat, |jj: int| vcol(verts@, w as int, p as int, ch as int, jj));
        assert forall|jj: int| 0 <= jj < r implies #[trigger] delta_at(out@, base, bits, jj)
            == vals[jj].wrapping_sub(
            if jj == 0 {
                prev_byte
            } else {
                vals[jj - 1]
            },
        ) by {
            assert(vals[jj] == vcol(verts@, w as int, p as int, ch as int, jj));
            if jj > 0 {
                assert(vals[jj - 1] == vcol(verts@, w as int, p as int, ch as int, jj - 1));
            }
            assert(delta_at(out@, base, bits, jj) == dseq[jj]);
        }
        assert forall|jx: int| 0 <= jx < r implies col_val(out@, base, bits, prev_byte, jx as nat)
            == vcol(verts@, w as int, p as int, ch as int, jx) by {
            lemma_col_roundtrip(out@, base, bits, prev_byte, vals, jx);
        }
    }
}

/// Encodes one block of `r` records starting at record `p`, channel by
/// channel.
fn encode_block(out: &mut Vec<u8>, verts: &[u8], w: usize, p: usize, r: usize, prev: &Vec<u8>)
    requires
        prev@.len() == w,
        1 <= r <= 16,
        1 <= w <= 256,
        (p + r) * w <= verts@.len(),
    ensures
        final(out)@.subrange(0, old(out)@.len() as int) == old(out)@,
        old(out)@.len() < final(out)@.len() <= old(out)@.len() + 17 * w,
        ({
            let b = sd_block(final(out)@, old(out)@.len() as int, prev@, w as nat, r as nat);
            b.0 == verts@.subrange((p * w) as int, ((p + r) * w) as int)
                && b.1 == final(out)@.len() as int && b.2 == verts@.subrange(
                (((p + r) - 1) * w) as int,
                ((p + r) * w) as int,
            )
        }),
{
    let ghost n0 = out@.len() as int;
    let mut ch: usize = 0;
    while ch < w
        invariant
            ch <= w,
            1 <= r <= 16,
            1 <= w <= 256,
            prev@.len() == w,
            (p + r) * w <= verts@.len(),
            n0 == old(out)@.len(),
            out@.subrange(0, n0) == old(out)@,
            n0 + ch <= out@.len(),
            out@.len() <= n0 + ch * (1 + r),
            sd_chans(out@, n0, prev@, r as nat, ch as nat) == (
                colspec(verts@, w as int, p as int, r as int, ch as int),
                out@.len() as int,
            ),
        decreases w - ch,
    {
        let ghost pre_out = out@;
        let pb = prev[ch];
        encode_column(out, verts, w, p, r, ch, pb);
        proof {
            lemma_sd_chans_prefix(pre_out, out@, n0, prev@, r as nat, ch as nat);
            crate::bytes::lemma_prefix_trans(old(out)@, pre_out, out@);
            let bits = sel_bits(byte_at(out@, pre_out.len() as int));
            let base = pre_out.len() + 1;
            assert(Seq::new(
                r as nat,
                |j2: int| col_val(out@, base as int, bits, pb, j2 as nat),
            ) =~= Seq::new(r as nat, |j2: int| vcol(verts@, w as int, p as int, ch as int, j2)));
            assert((ch + 1) * r == ch * r + r) by (nonlinear_arith);
            assert(colspec(verts@, w as int, p as int, r as int, (ch + 1) as int) =~= colspec(
                verts@,
                w as int,
                p as int,
                r as int,
                ch as int,
            ) + Seq::new(r as nat, |j2: int| vcol(verts@, w as int, p as int, ch as int, j2))) by {
                let cleft = colspec(verts@, w as int, p as int, r as int, (ch + 1) as int);
                assert forall|idx: int| 0 <= idx < (ch + 1) * r implies cleft[idx] == (colspec(
                    verts@,
                    w as int,
                    p as int,
                    r as int,
                    ch as int,
                ) + Seq::new(r as nat, |j2: int| vcol(verts@, w as int, p as int, ch as int, j2)))[idx] by {
                    if idx >= ch * r {
                        vstd::arithmetic::div_mod::lemma_fundamental_div_mod_converse(
                            idx,
                            r as int,
                            ch as int,
                            idx - ch * r,
                        );
                    }
                }
            }
            assert((ch + 1) * (1 + r) == ch * (1 + r) + 1 + r) by (nonlinear_arith);
            assert(sd_chans(out@, n0, prev@, r as nat, (ch + 1) as nat) == (
                colspec(verts@, w as int, p as int, r as int, (ch + 1) as int),
                out@.len() as int,
            ));
        }
        ch += 1;
    }
    proof {
        assert(w * (1 + r) <= 17 * w) by (nonlinear_arith)
            requires
                r <= 16,
                0 <= w,
        ;
        let cols = colspec(verts@, w as int, p as int, r as int, w as int);
        let b = sd_block(out@, n0, prev@, w as nat, r as nat);
        assert(0 <= p * w && p * w + r * w == (p + r) * w && ((p + r) - 1) * w + w == (p + r) * w
            && p * w <= ((p + r) - 1) * w && (r as nat) * (w as nat) == r * w) by (nonlinear_arith)
            requires
                0 <= p,
                0 < r,
                0 < w,
        ;
        assert(b.0 =~= verts@.subrange((p * w) as int, ((p + r) * w) as int)) by {
            assert forall|k: int| 0 <= k < r * w implies b.0[k] == verts@.subrange(
                (p * w) as int,
                ((p + r) * w) as int,
            )[k] by {
                let jr = k / (w as int);
                let cr = k % (w as int);
                vstd::arithmetic::div_mod::lemma_fundamental_div_mod(k, w as int);
                vstd::arithmetic::div_mod::lemma_mod_bound(k, w as int);
                assert(jr < r && 0 <= jr && cr * r + jr < w * r && (p + jr) * w + cr == p * w + k
                    && (p + jr) * w + cr < (p + r) * w) by (nonlinear_arith)
                    requires
                        k == (w as int) * jr + cr,
                        0 <= cr < w,
                        0 <= k < r * w,
                        0 < r,
                        0 < w,
                        0 <= p,
                ;
                vstd::arithmetic::div_mod::lemma_fundamental_div_mod_converse(
                    cr * r + jr,
                    r as int,
                    cr,
                    jr,
                );
                assert(cols[cr * r + jr] == vcol(verts@, w as int, p as int, cr, jr));
            }
        }
        assert(b.2 =~= verts@.subrange((((p + r) - 1) * w) as int, ((p + r) * w) as int)) by {
            assert forall|c: int| 0 <= c < w implies b.2[c] == verts@.subrange(
                (((p + r) - 1) * w) as int,
                ((p + r) * w) as int,
            )[c] by {
                vstd::arithmetic::div_mod::lemma_fundamental_div_mod_converse(
                    c * r + r - 1,
                    r as int,
                    c,
                    r - 1,
                );
                assert(c * r + r - 1 < w * r && (p + r - 1) * w + c == ((p + r) - 1) * w + c && (p
                    + r - 1) * w + c < (p + r) * w) by (nonlinear_arith)
                    requires
                        0 <= c < w,
                        0 < r,
                        0 < w,
                        0 <= p,
                ;
                assert(cols[c * r + r - 1] == vcol(verts@, w as int, p as int, c, r - 1));
            }
        }
    }
}

/// Copies record `idx` out of a flat record buffer.
fn record_at(verts: &[u8], w: usize, idx: usize) -> (rec: Vec<u8>)
    requires
        1 <= w,
        (idx + 1) * w <= verts@.len(),
    ensures
        rec@ == verts@.subrange((idx * w) as int, ((idx + 1) * w) as int),
{
    let vlen = verts.len();
    let mut rec: Vec<u8> = Vec::new();
    let mut c: usize = 0;
    while c < w
        invariant
            c <= w,
            1 <= w,
            vlen == verts@.len(),
            (idx + 1) * w <= verts@.len(),
            rec@.len() == c,
            forall|j: int| 0 <= j < c ==> rec@[j] == verts@[idx * w + j],
        decreases w - c,
    {
        proof {
            assert(idx * w + c < (idx + 1) * w && idx * w <= (idx + 1) * w) by (nonlinear_arith)
                requires
                    0 <= c < w,
                    0 <= idx,
            ;
        }
        rec.push(verts[idx * w + c]);
        c += 1;
    }
    proof {
        assert(idx * w + w == (idx + 1) * w) by (nonlinear_arith);
        assert(rec@ =~= verts@.subrange((idx * w) as int, ((idx + 1) * w) as int));
    }
    rec
}

/// Worst-case encoded size for `vertex_count` records of `vertex_size`
/// bytes. [`encode_vertex_buffer`] never produces more bytes than this.
pub fn encode_vertex_buffer_bound(vertex_count: usize, vertex_size: usize) -> (r: usize)
    requires
        1 <= vertex_size <= 256,
        vertex_encode_fits(vertex_count as nat, vertex_size as nat),
    ensures
        r as int == vertex_bytes_bound(vertex_count as nat, vertex_size as nat),
{
    2 + ((vertex_count + 15) / 16) * (17 * vertex_size)
}

/// Encodes a stream of fixed-width records into a compact byte blob.
///
/// The input length must be a whole number of records. Encoding fails only
/// when the worst-case output size overflows a `usize`; on success the blob
/// decodes back to the input exactly, and its length never exceeds
/// [`encode_vertex_buffer_bound`].
pub fn encode_vertex_buffer(vertices: &[u8], vertex_size: usize) -> (r: Result<Vec<u8>, CodecError>)
    requires
        1 <= vertex_size <= 256,
        (vertices@.len() as int) % (vertex_size as int) == 0,
    ensures
        r is Ok <==> vertex_encode_fits(
            ((vertices@.len() as int) / (vertex_size as int)) as nat,
            vertex_size as nat,
        ),
        (r matches Ok(bytes) ==> sd_vertex_blob(
            bytes@,
            ((vertices@.len() as int) / (vertex_size as int)) as nat,
            vertex_size as nat,
        ) == Some(vertices@) && bytes@.len() <= vertex_bytes_bound(
            ((vertices@.len() as int) / (vertex_size as int)) as nat,
            vertex_size as nat,
        )),
        r is Err ==> r == Err::<Vec<u8>, CodecError>(CodecError::BufferTooLarge),
{
    let w = vertex_size;
    let n = vertices.len() / w;
    let t1 = match n.checked_add(15) {
        None => {
            return Err(CodecError::BufferTooLarge);
        },
        Some(x) => x,
    };
    let nb = t1 / 16;
    let prod = match nb.checked_mul(17 * w) {
        None => {
            return Err(CodecError::BufferTooLarge);
        },
        Some(x) => x,
    };
    if prod > usize::MAX - 2 {
        return Err(CodecError::BufferTooLarge);
    }
    let mut out: Vec<u8> = Vec::new();
    out.push(VERTEX_VERSION);
    out.push((w - 1) as u8);
    let mut prev: Vec<u8> = Vec::new();
    let mut i: usize = 0;
    while i < w
        invariant
            i <= w,
            prev@.len() == i,
            forall|j: int| 0 <= j < i ==> prev@[j] == 0u8,
        decreases w - i,
    {
        prev.push(0);
        i += 1;
    }
    proof {
        assert(prev@ =~= zero_rec(w as nat));
        assert(vertices@.len() as int == ((vertices@.len() as int) / (w as int)) * (w as int)) by {
            vstd::arithmetic::div_mod::lemma_fundamental_div_mod(
                vertices@.len() as int,
                w as int,
            );
        }
        assert(vertices@.take(0) =~= Seq::<u8>::empty());
    }
    let mut done: usize = 0;
    let ghost mut qb: int = 0;
    while done < n
        invariant
            1 <= w <= 256,
            w == vertex_size,
            n as int == (vertices@.len() as int) / (w as int),
            vertices@.len() == n * w,
            done <= n,
            done == 16 * qb || (done == n && n < 16 * qb <= n + 15),
            0 <= qb,
            prev@.len() == w,
            out@.len() >= 2,
            out@.len() <= 2 + qb * (17 * (w as int)),
            out@[0] == VERTEX_VERSION,
            out@[1] == (w - 1) as u8,
            sd_vblocks(out@, 2, w as nat, done as nat) == (
                vertices@.take((done * w) as int),
                out@.len() as int,
                prev@,
            ),
        decreases n - done,
    {
        let r = if n - done >= 16 {
            16
        } else {
            n - done
        };
        proof {
            assert((done + r) * w <= n * w && done * w + r * w == (done + r) * w && ((done + r) - 1)
                * w >= done * w) by (nonlinear_arith)
                requires
                    done + r <= n,
                    0 < w,
                    0 < r,
                    0 <= done,
            ;
        }
        let ghost pre_out = out@;
        let ghost pre_prev = prev@;
        encode_block(&mut out, vertices, w, done, r, &prev);
        let nprev = record_at(vertices, w, done + r - 1);
        prev = nprev;
        proof {
            lemma_sd_vblocks_prefix(pre_out, out@, 2, w as nat, done as nat);
            if r == 16 {
                assert(16 * (qb + 1) == done + 16) by (nonlinear_arith)
                    requires
                        done == 16 * qb,
                ;
                vstd::arithmetic::div_mod::lemma_mod_multiples_basic(qb + 1, 16);
                assert((done + r) % 16 == 0);
            } else {
                vstd::arithmetic::div_mod::lemma_mod_multiples_vanish(qb, r as int, 16);
                vstd::arithmetic::div_mod::lemma_small_mod(r as nat, 16);
                assert((done + r) % 16 == r);
            }
            let b = sd_block(out@, pre_out.len() as int, pre_prev, w as nat, r as nat);
            assert(vertices@.take(((done + r) * w) as int) =~= vertices@.take((done * w) as int)
                + vertices@.subrange((done * w) as int, ((done + r) * w) as int));
            assert(prev@ == vertices@.subrange(
                (((done + r) - 1) * w) as int,
                ((done + r) * w) as int,
            ));
            assert(sd_vblocks(out@, 2, w as nat, (done + r) as nat) == (
                vertices@.take(((done + r) * w) as int),
                out@.len() as int,
                prev@,
            ));
            assert(out@.subrange(0, pre_out.len() as int)[0] == out@[0]);
            assert(out@.subrange(0, pre_out.len() as int)[1] == out@[1]);
            qb = qb + 1;
            assert(out@.len() <= 2 + qb * (17 * (w as int))) by (nonlinear_arith)
                requires
                    out@.len() <= pre_out.len() + 17 * (w as int),
                    pre_out.len() <= 2 + (qb - 1) * (17 * (w as int)),
                    0 <= w,
            ;
        }
        done = done + r;
    }
    proof {
        if done == 16 * qb {
            vstd::arithmetic::div_mod::lemma_fundamental_div_mod_converse(n as int, 16, qb, 0);
            vstd::arithmetic::div_mod::lemma_div_is_ordered(n as int, n as int + 15, 16);
        } else {
            vstd::arithmetic::div_mod::lemma_div_is_ordered(16 * qb, n as int + 15, 16);
            vstd::arithmetic::div_mod::lemma_div_multiples_vanish(qb, 16);
        }
        assert(qb <= ((n + 15) / 16) as int);
        assert(out@.len() <= vertex_bytes_bound(n as nat, w as nat)) by (nonlinear_arith)
            requires
                out@.len() <= 2 + qb * (17 * (w as int)),
                qb <= ((n + 15) as int) / 16,
                vertex_bytes_bound(n as nat, w as nat) == 2 + (((n + 15) as int) / 16) * (17int
                    * (w as int)),
                0 <= w,
        ;
        assert(vertices@.take((n * w) as int) =~= vertices@);
    }
    Ok(out)
}

} // verus!
