//! A compact binary codec for 3D mesh geometry: triangle index buffers and
//! fixed-stride vertex attribute buffers.
//!
//! The index codec predicts each triangle from a rolling table of recently
//! seen edges and a FIFO of recently used vertices; the vertex codec delta
//! codes each byte channel of a record stream in fixed-size blocks and packs
//! the deltas with a per-channel variable bit width. Both decoders are safe
//! on untrusted input: they never read out of bounds and always terminate,
//! returning either a header error or a fully populated (possibly garbage)
//! result.
use vstd::prelude::*;

pub mod bytes;
pub mod container;
pub mod indexcodec;
pub mod vertexcodec;

verus! {

/// Errors shared by the encoders and decoders.
#[derive(Debug, Clone, Copy, PartialEq, Eq, Structural)]
pub enum CodecError {
    /// The encoded input is empty, carries an unknown version tag, or was
    /// produced for a different record width.
    InvalidHeader,
    /// The requested index count is not a multiple of three.
    InvalidCount,
    /// The worst-case output size does not fit in memory.
    BufferTooLarge,
}

} // verus!
