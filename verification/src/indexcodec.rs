//! Triangle index codec.
//!
//! The encoder walks the triangle list in input order and predicts each
//! triangle from two rolling tables seeded to a known state: a table of the
//! sixteen most recently emitted edges, each remembered together with the
//! opposite vertex of its source triangle, and a FIFO of the sixteen most
//! recently used vertices. A triangle whose leading edge and third vertex
//! are both predicted costs one code byte; an edge match with an explicit
//! third vertex costs the code byte plus one vertex code; the fallback spells
//! out all three vertices. A vertex code is either a FIFO slot (one byte) or
//! a literal delta from the last literally coded vertex (five bytes).
//!
//! The decoder replays the same tables deterministically. Its behaviour on
//! every input, valid or corrupt, is pinned by the specification function
//! [`sd_index_blob`]: reads past the end of the buffer yield zero, so
//! decoding always terminates with `index_count` outputs once the version
//! tag has been accepted.
use vstd::prelude::*;

use crate::bytes::byte_at;
use crate::bytes::clampi;
use crate::bytes::lemma_bytes_prefix;
use crate::bytes::lemma_prefix_trans;
use crate::bytes::le32_at;
use crate::bytes::read_byte;
use crate::bytes::read_u32_le;
use crate::bytes::write_u32_le;
use crate::CodecError;

verus! {

/// Version tag written as the first byte of every encoded index blob.
pub const INDEX_VERSION: u8 = 1;

/// The prediction state shared by encoder and decoder: recent edges with
/// their predicted third vertex, recent vertices, and the last literally
/// coded vertex value.
#[verifier::ext_equal]
pub struct IState {
    pub edges: Seq<(u32, u32, u32)>,
    pub fifo: Seq<u32>,
    pub last: u32,
}

/// The seed state: all table entries zero.
pub open spec fn init_istate() -> IState {
    IState {
        edges: Seq::new(16, |i: int| (0u32, 0u32, 0u32)),
        fifo: Seq::new(16, |i: int| 0u32),
        last: 0u32,
    }
}

/// Pushes a value at the front of a sixteen-entry table, dropping the oldest.
pub open spec fn push16<A>(q: Seq<A>, v: A) -> Seq<A> {
    q.insert(0, v).drop_last()
}

/// The deterministic table update after a triangle `(a, b, c)` is coded:
/// the three edges are pushed in reverse orientation together with their
/// opposite vertex, and all three vertices enter the FIFO.
pub open spec fn advance_state(st: IState, a: u32, b: u32, c: u32) -> IState {
    IState {
        edges: push16(push16(push16(st.edges, (b, a, c)), (c, b, a)), (a, c, b)),
        fifo: push16(push16(push16(st.fifo, a), b), c),
        last: st.last,
    }
}

/// Decodes one vertex code at position `i`: a byte below sixteen names a
/// FIFO slot; anything else starts a five-byte literal whose payload is a
/// wrapping delta from the last literal vertex.
pub open spec fn sd_vertex(s: Seq<u8>, i: int, st: IState) -> (u32, int, IState) {
    let b = byte_at(s, i);
    if b < 16 {
        (st.fifo[b as int], i + 1, st)
    } else {
        let v = st.last.wrapping_add(le32_at(s, i + 1));
        (v, i + 5, IState { edges: st.edges, fifo: st.fifo, last: v })
    }
}

/// Decodes one triangle at position `i` and applies the table update.
pub open spec fn sd_tri(s: Seq<u8>, i: int, st: IState) -> ((u32, u32, u32), int, IState) {
    let h = byte_at(s, i);
    if 0xE0 <= h && h < 0xF0 {
        let e = st.edges[h - 0xE0];
        (e, i + 1, advance_state(st, e.0, e.1, e.2))
    } else if 0xD0 <= h && h < 0xE0 {
        let e = st.edges[h - 0xD0];
        let rc = sd_vertex(s, i + 1, st);
        ((e.0, e.1, rc.0), rc.1, advance_state(rc.2, e.0, e.1, rc.0))
    } else {
        let ra = sd_vertex(s, i + 1, st);
        let rb = sd_vertex(s, ra.1, ra.2);
        let rc = sd_vertex(s, rb.1, rb.2);
        ((ra.0, rb.0, rc.0), rc.1, advance_state(rc.2, ra.0, rb.0, rc.0))
    }
}

/// Decodes `k` triangles starting at position `i`, returning the flattened
/// indices, the end position, and the final state.
pub open spec fn sd_tris(s: Seq<u8>, i: int, st: IState, k: nat) -> (Seq<u32>, int, IState)
    decreases k,
{
    if k == 0 {
        (Seq::empty(), i, st)
    } else {
        let p = sd_tris(s, i, st, (k - 1) as nat);
        let t = sd_tri(s, p.1, p.2);
        (p.0.push(t.0.0).push(t.0.1).push(t.0.2), t.1, t.2)
    }
}

/// The whole decoder: `None` exactly when the count is not a multiple of
/// three or the version tag is missing or unknown; otherwise the indices
/// that replaying the prediction tables yields.
pub open spec fn sd_index_blob(s: Seq<u8>, index_count: nat) -> Option<Seq<u32>> {
    if index_count % 3 != 0 || s.len() == 0 || s[0] != INDEX_VERSION {
        None
    } else {
        Some(sd_tris(s, 1, init_istate(), index_count / 3).0)
    }
}

/// Worst-case encoded size for `index_count` indices: the version byte plus
/// sixteen bytes per triangle (code byte and three literal vertices).
pub open spec fn index_bytes_bound(index_count: nat) -> int {
    1 + (index_count / 3) * 16int
}

pub proof fn lemma_sd_vertex_bounds(s: Seq<u8>, i: int, st: IState)
    ensures
        i + 1 <= sd_vertex(s, i, st).1 <= i + 5,
{
}

pub proof fn lemma_sd_tri_bounds(s: Seq<u8>, i: int, st: IState)
    ensures
        i + 1 <= sd_tri(s, i, st).1 <= i + 16,
{
}

pub proof fn lemma_sd_tris_mono(s: Seq<u8>, i: int, st: IState, k: nat)
    ensures
        sd_tris(s, i, st, k).1 >= i,
    decreases k,
{
    if k > 0 {
        let p = sd_tris(s, i, st, (k - 1) as nat);
        lemma_sd_tris_mono(s, i, st, (k - 1) as nat);
        lemma_sd_tri_bounds(s, p.1, p.2);
    }
}

/// Extending the byte buffer does not change a vertex decode that ended
/// inside the original buffer.
pub proof fn lemma_sd_vertex_prefix(s1: Seq<u8>, s2: Seq<u8>, i: int, st: IState)
    requires
        0 <= i,
        s1.len() <= s2.len(),
        s2.subrange(0, s1.len() as int) == s1,
        sd_vertex(s1, i, st).1 <= s1.len(),
    ensures
        sd_vertex(s2, i, st) == sd_vertex(s1, i, st),
{
    lemma_bytes_prefix(s1, s2);
    assert(i < s1.len());
    if byte_at(s1, i) < 16 {
    } else {
        assert(le32_at(s2, i + 1) == le32_at(s1, i + 1));
    }
}

/// Extending the byte buffer does not change a triangle decode that ended
/// inside the original buffer.
pub proof fn lemma_sd_tri_prefix(s1: Seq<u8>, s2: Seq<u8>, i: int, st: IState)
    requires
        0 <= i,
        s1.len() <= s2.len(),
        s2.subrange(0, s1.len() as int) == s1,
        sd_tri(s1, i, st).1 <= s1.len(),
    ensures
        sd_tri(s2, i, st) == sd_tri(s1, i, st),
{
    lemma_bytes_prefix(s1, s2);
    assert(i < s1.len());
    let h = byte_at(s1, i);
    if 0xE0 <= h && h < 0xF0 {
    } else if 0xD0 <= h && h < 0xE0 {
        lemma_sd_vertex_prefix(s1, s2, i + 1, st);
    } else {
        let ra = sd_vertex(s1, i + 1, st);
        let rb = sd_vertex(s1, ra.1, ra.2);
        lemma_sd_vertex_bounds(s1, i + 1, st);
        lemma_sd_vertex_bounds(s1, ra.1, ra.2);
        lemma_sd_vertex_bounds(s1, rb.1, rb.2);
        lemma_sd_vertex_prefix(s1, s2, i + 1, st);
        lemma_sd_vertex_prefix(s1, s2, ra.1, ra.2);
        lemma_sd_vertex_prefix(s1, s2, rb.1, rb.2);
    }
}

/// Extending the byte buffer does not change a multi-triangle decode that
/// ended inside the original buffer.
pub proof fn lemma_sd_tris_prefix(s1: Seq<u8>, s2: Seq<u8>, i: int, st: IState, k: nat)
    requires
        0 <= i,
        s1.len() <= s2.len(),
        s2.subrange(0, s1.len() as int) == s1,
        sd_tris(s1, i, st, k).1 <= s1.len(),
    ensures
        sd_tris(s2, i, st, k) == sd_tris(s1, i, st, k),
    decreases k,
{
    if k > 0 {
        let p = sd_tris(s1, i, st, (k - 1) as nat);
        lemma_sd_tris_mono(s1, i, st, (k - 1) as nat);
        lemma_sd_tri_bounds(s1, p.1, p.2);
        lemma_sd_tris_prefix(s1, s2, i, st, (k - 1) as nat);
        lemma_sd_tri_prefix(s1, s2, p.1, p.2);
    }
}

/// The rolling prediction tables in executable form.
struct IndexTables {
    edges: Vec<(u32, u32, u32)>,
    fifo: Vec<u32>,
    last: u32,
}

impl IndexTables {
    spec fn st(&self) -> IState {
        IState { edges: self.edges@, fifo: self.fifo@, last: self.last }
    }

    spec fn wf(&self) -> bool {
        self.edges@.len() == 16 && self.fifo@.len() == 16
    }
}

fn tables_new() -> (t: IndexTables)
    ensures
        t.wf(),
        t.st() == init_istate(),
{
    let mut edges: Vec<(u32, u32, u32)> = Vec::new();
    let mut fifo: Vec<u32> = Vec::new();
    let mut i: usize = 0;
    while i < 16
        invariant
            i <= 16,
            edges@.len() == i,
            fifo@.len() == i,
            forall|j: int| 0 <= j < i ==> edges@[j] == (0u32, 0u32, 0u32),
            forall|j: int| 0 <= j < i ==> fifo@[j] == 0u32,
        decreases 16 - i,
    {
        edges.push((0, 0, 0));
        fifo.push(0);
        i += 1;
    }
    let t = IndexTables { edges, fifo, last: 0 };
    proof {
        assert(t.st().edges =~= init_istate().edges);
        assert(t.st().fifo =~= init_istate().fifo);
        assert(t.st() =~= init_istate());
    }
    t
}

fn push_slot<A>(q: &mut Vec<A>, v: A)
    requires
        old(q)@.len() == 16,
    ensures
        final(q)@.len() == 16,
        final(q)@ == push16(old(q)@, v),
{
    q.insert(0, v);
    q.pop();
    proof {
        assert(q@ =~= push16(old(q)@, v));
    }
}

fn tables_advance(t: &mut IndexTables, a: u32, b: u32, c: u32)
    requires
        old(t).wf(),
    ensures
        final(t).wf(),
        final(t).st() == advance_state(old(t).st(), a, b, c),
{
    push_slot(&mut t.edges, (b, a, c));
    push_slot(&mut t.edges, (c, b, a));
    push_slot(&mut t.edges, (a, c, b));
    push_slot(&mut t.fifo, a);
    push_slot(&mut t.fifo, b);
    push_slot(&mut t.fifo, c);
}

fn decode_vertex(buf: &[u8], pos: usize, Ghost(gp): Ghost<int>, t: &mut IndexTables) -> (r: (
    u32,
    usize,
))
    requires
        old(t).wf(),
        0 <= gp,
        pos as int == clampi(gp, buf@.len() as int),
    ensures
        final(t).wf(),
        ({
            let sv = sd_vertex(buf@, gp, old(t).st());
            r.0 == sv.0 && r.1 as int == clampi(sv.1, buf@.len() as int) && final(t).st() == sv.2
        }),
{
    let (b, pos2) = read_byte(buf, pos, Ghost(gp));
    if b < 16 {
        (t.fifo[b as usize], pos2)
    } else {
        let (d, pos3) = read_u32_le(buf, pos2, Ghost(gp + 1));
        let v = t.last.wrapping_add(d);
        t.last = v;
        (v, pos3)
    }
}

fn decode_tri(buf: &[u8], pos: usize, Ghost(gp): Ghost<int>, t: &mut IndexTables) -> (r: (
    u32,
    u32,
    u32,
    usize,
))
    requires
        old(t).wf(),
        0 <= gp,
        pos as int == clampi(gp, buf@.len() as int),
    ensures
        final(t).wf(),
        ({
            let st = sd_tri(buf@, gp, old(t).st());
            (r.0, r.1, r.2) == st.0 && r.3 as int == clampi(st.1, buf@.len() as int)
                && final(t).st() == st.2
        }),
{
    let (h, pos2) = read_byte(buf, pos, Ghost(gp));
    if 0xE0 <= h && h < 0xF0 {
        let e = t.edges[(h - 0xE0) as usize];
        tables_advance(t, e.0, e.1, e.2);
        (e.0, e.1, e.2, pos2)
    } else if 0xD0 <= h && h < 0xE0 {
        let e = t.edges[(h - 0xD0) as usize];
        let (c, pos3) = decode_vertex(buf, pos2, Ghost(gp + 1), t);
        tables_advance(t, e.0, e.1, c);
        (e.0, e.1, c, pos3)
    } else {
        let ghost st0 = t.st();
        let (a, pos3) = decode_vertex(buf, pos2, Ghost(gp + 1), t);
        let ghost ga = sd_vertex(buf@, gp + 1, st0).1;
        let (b2, pos4) = decode_vertex(buf, pos3, Ghost(ga), t);
        let ghost gb = sd_vertex(buf@, ga, sd_vertex(buf@, gp + 1, st0).2).1;
        let (c, pos5) = decode_vertex(buf, pos4, Ghost(gb), t);
        tables_advance(t, a, b2, c);
        (a, b2, c, pos5)
    }
}

/// Decodes index data produced by [`encode_index_buffer`].
///
/// The decoder is safe on untrusted input: it never reads out of bounds,
/// always terminates, and returns either a header error or exactly
/// `index_count` indices, which replay of the prediction tables pins down
/// byte for byte; corrupt bytes past a valid version tag yield in-range
/// garbage rather than an error.
pub fn decode_index_buffer(encoded: &[u8], index_count: usize) -> (r: Result<Vec<u32>, CodecError>)
    ensures
        r is Ok <==> sd_index_blob(encoded@, index_count as nat) is Some,
        (r matches Ok(v) ==> Some(v@) == sd_index_blob(encoded@, index_count as nat) && v@.len()
            == index_count),
        index_count % 3 != 0 ==> r == Err::<Vec<u32>, CodecError>(CodecError::InvalidCount),
        (index_count % 3 == 0 && (encoded@.len() == 0 || encoded@[0] != INDEX_VERSION) ==> r
            == Err::<Vec<u32>, CodecError>(CodecError::InvalidHeader)),
{
    if index_count % 3 != 0 {
        return Err(CodecError::InvalidCount);
    }
    if encoded.len() == 0 {
        return Err(CodecError::InvalidHeader);
    }
    if encoded[0] != INDEX_VERSION {
        return Err(CodecError::InvalidHeader);
    }
    let tri_count = index_count / 3;
    let mut t = tables_new();
    let mut out: Vec<u32> = Vec::new();
    let mut pos: usize = 1;
    let ghost mut gp: int = 1;
    let mut k: usize = 0;
    while k < tri_count
        invariant
            t.wf(),
            0 <= gp,
            pos as int == clampi(gp, encoded@.len() as int),
            k <= tri_count,
            tri_count == index_count / 3,
            index_count % 3 == 0,
            encoded@.len() > 0,
            encoded@[0] == INDEX_VERSION,
            out@.len() == 3 * k,
            sd_tris(encoded@, 1, init_istate(), k as nat) == (out@, gp, t.st()),
        decreases tri_count - k,
    {
        let ghost pre_st = t.st();
        let ghost pre_out = out@;
        let (a, b, c, pos2) = decode_tri(encoded, pos, Ghost(gp), &mut t);
        out.push(a);
        out.push(b);
        out.push(c);
        pos = pos2;
        proof {
            let st = sd_tri(encoded@, gp, pre_st);
            gp = st.1;
            lemma_sd_tri_bounds(encoded@, sd_tris(encoded@, 1, init_istate(), k as nat).1, pre_st);
            assert(sd_tris(encoded@, 1, init_istate(), (k + 1) as nat) == (out@, gp, t.st()));
        }
        k += 1;
    }
    proof {
        assert(3 * tri_count == index_count);
    }
    Ok(out)
}

fn find_edge(t: &IndexTables, a: u32, b: u32) -> (r: usize)
    requires
        t.wf(),
    ensures
        r <= 16,
        r < 16 ==> t.st().edges[r as int].0 == a && t.st().edges[r as int].1 == b,
{
    let mut s: usize = 0;
    while s < 16
        invariant
            s <= 16,
            t.wf(),
        decreases 16 - s,
    {
        let e = t.edges[s];
        if e.0 == a && e.1 == b {
            return s;
        }
        s += 1;
    }
    16
}

fn find_fifo(t: &IndexTables, v: u32) -> (r: usize)
    requires
        t.wf(),
    ensures
        r <= 16,
        r < 16 ==> t.st().fifo[r as int] == v,
{
    let mut s: usize = 0;
    while s < 16
        invariant
            s <= 16,
            t.wf(),
        decreases 16 - s,
    {
        if t.fifo[s] == v {
            return s;
        }
        s += 1;
    }
    16
}

fn encode_vertex(out: &mut Vec<u8>, t: &mut IndexTables, v: u32)
    requires
        old(t).wf(),
    ensures
        final(t).wf(),
        old(out)@.len() + 1 <= final(out)@.len() <= old(out)@.len() + 5,
        final(out)@.subrange(0, old(out)@.len() as int) == old(out)@,
        sd_vertex(final(out)@, old(out)@.len() as int, old(t).st()) == (
            v,
            final(out)@.len() as int,
            final(t).st(),
        ),
{
    let ghost n = out@.len() as int;
    let s = find_fifo(t, v);
    if s < 16 {
        out.push(s as u8);
        proof {
            assert(out@.subrange(0, n) =~= old(out)@);
            assert(byte_at(out@, n) == s as u8);
        }
    } else {
        let d = v.wrapping_sub(t.last);
        let ghost lastv = t.last;
        out.push(16);
        write_u32_le(out, d);
        t.last = v;
        proof {
            let mid = old(out)@.push(16u8);
            assert(mid.subrange(0, n) =~= old(out)@);
            lemma_prefix_trans(old(out)@, mid, out@);
            assert(out@.subrange(0, mid.len() as int)[n] == out@[n]);
            assert(byte_at(out@, n) == 16u8);
            assert(lastv.wrapping_add(d) == v);
        }
    }
}

fn encode_tri(out: &mut Vec<u8>, t: &mut IndexTables, a: u32, b: u32, c: u32)
    requires
        old(t).wf(),
    ensures
        final(t).wf(),
        old(out)@.len() + 1 <= final(out)@.len() <= old(out)@.len() + 16,
        final(out)@.subrange(0, old(out)@.len() as int) == old(out)@,
        ({
            let st = sd_tri(final(out)@, old(out)@.len() as int, old(t).st());
            st.0 == (a, b, c) && st.1 == final(out)@.len() as int && st.2 == final(t).st()
        }),
{
    let ghost n = out@.len() as int;
    let s = find_edge(t, a, b);
    if s < 16 {
        let e = t.edges[s];
        if e.2 == c {
            out.push((0xE0 + s) as u8);
            tables_advance(t, a, b, c);
            proof {
                assert(out@.subrange(0, n) =~= old(out)@);
                assert(byte_at(out@, n) == (0xE0 + s) as u8);
                assert(old(t).st().edges[s as int] == (a, b, c));
            }
        } else {
            out.push((0xD0 + s) as u8);
            let ghost mid = out@;
            encode_vertex(out, t, c);
            tables_advance(t, a, b, c);
            proof {
                assert(mid.subrange(0, n) =~= old(out)@);
                lemma_prefix_trans(old(out)@, mid, out@);
                assert(out@.subrange(0, mid.len() as int)[n] == out@[n]);
                assert(byte_at(out@, n) == (0xD0 + s) as u8);
            }
        }
    } else {
        out.push(0xF0);
        let ghost st0 = t.st();
        let ghost mid0 = out@;
        encode_vertex(out, t, a);
        let ghost mid_a = out@;
        let ghost st_a = t.st();
        encode_vertex(out, t, b);
        let ghost mid_b = out@;
        let ghost st_b = t.st();
        encode_vertex(out, t, c);
        tables_advance(t, a, b, c);
        proof {
            assert(mid0.subrange(0, n) =~= old(out)@);
            lemma_prefix_trans(mid0, mid_a, mid_b);
            lemma_prefix_trans(mid0, mid_b, out@);
            lemma_prefix_trans(old(out)@, mid0, out@);
            lemma_prefix_trans(mid_a, mid_b, out@);
            assert(out@.subrange(0, mid0.len() as int)[n] == out@[n]);
            assert(byte_at(out@, n) == 0xF0u8);
            lemma_sd_vertex_prefix(mid_a, out@, n + 1, st0);
            lemma_sd_vertex_prefix(mid_b, out@, mid_a.len() as int, st_a);
        }
    }
}

/// Worst-case encoded size for an index buffer with `index_count` indices.
/// [`encode_index_buffer`] never produces more bytes than this.
pub fn encode_index_buffer_bound(index_count: usize, vertex_count: usize) -> (r: usize)
    requires
        index_bytes_bound(index_count as nat) <= usize::MAX,
    ensures
        r == index_bytes_bound(index_count as nat),
{
    1 + (index_count / 3) * 16
}

/// Encodes a triangle list into a compact byte blob.
///
/// The input length must be a multiple of three and every index must name a
/// vertex below `vertex_count`. Encoding fails only when the worst-case
/// output size overflows a `usize`; on success the blob decodes back to the
/// input exactly, and its length never exceeds
/// [`encode_index_buffer_bound`].
#[verifier::rlimit(50)]
pub fn encode_index_buffer(indices: &[u32], vertex_count: usize) -> (r: Result<Vec<u8>, CodecError>)
    requires
        indices@.len() % 3 == 0,
        forall|i: int| 0 <= i < indices@.len() ==> (indices@[i] as int) < (vertex_count as int),
    ensures
        r is Ok <==> index_bytes_bound(indices@.len() as nat) <= usize::MAX,
        (r matches Ok(bytes) ==> sd_index_blob(bytes@, indices@.len() as nat) == Some(indices@)
            && bytes@.len() <= index_bytes_bound(indices@.len() as nat)),
        r is Err ==> r == Err::<Vec<u8>, CodecError>(CodecError::BufferTooLarge),
{
    let n = indices.len();
    let tri_count = n / 3;
    let cap = match tri_count.checked_mul(16) {
        None => {
            return Err(CodecError::BufferTooLarge);
        },
        Some(x) => x,
    };
    if cap > usize::MAX - 1 {
        return Err(CodecError::BufferTooLarge);
    }
    let mut out: Vec<u8> = Vec::new();
    out.push(INDEX_VERSION);
    let mut t = tables_new();
    let mut k: usize = 0;
    proof {
        assert(sd_tris(out@, 1, init_istate(), 0nat) == (Seq::<u32>::empty(), 1int, t.st()));
        assert(indices@.take(0) =~= Seq::<u32>::empty());
    }
    while k < tri_count
        invariant
            t.wf(),
            k <= tri_count,
            tri_count == n / 3,
            n == indices@.len(),
            n % 3 == 0,
            out@.len() >= 1,
            out@.len() <= 1 + 16 * k,
            out@[0] == INDEX_VERSION,
            sd_tris(out@, 1, init_istate(), k as nat) == (
                indices@.take(3 * k as int),
                out@.len() as int,
                t.st(),
            ),
        decreases tri_count - k,
    {
        let ghost pre_out = out@;
        let ghost pre_st = t.st();
        proof {
            assert(3 * tri_count == n);
        }
        let a = indices[3 * k];
        let b = indices[3 * k + 1];
        let c = indices[3 * k + 2];
        encode_tri(&mut out, &mut t, a, b, c);
        proof {
            lemma_sd_tris_prefix(pre_out, out@, 1, init_istate(), k as nat);
            assert(out@.subrange(0, pre_out.len() as int)[0] == out@[0]);
            assert(indices@.take(3 * (k + 1) as int) =~= indices@.take(3 * k as int).push(a).push(
                b,
            ).push(c));
            assert(sd_tris(out@, 1, init_istate(), (k + 1) as nat) == (
                indices@.take(3 * (k + 1) as int),
                out@.len() as int,
                t.st(),
            ));
        }
        k += 1;
    }
    proof {
        assert(3 * tri_count == n);
        assert(indices@.take(3 * tri_count as int) =~= indices@);
    }
    Ok(out)
}

} // verus!
