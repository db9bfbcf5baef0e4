//! Descriptor records for the caller's container format.
//!
//! The container groups the two encoded blobs with the counts and
//! quantization parameters needed to decode and dequantize them. The codec
//! itself never reads these records; they are passive metadata.
use vstd::prelude::*;

verus! {

/// One draw group inside an encoded container: a contiguous range of indices
/// and the length of the material name that follows the group table.
#[derive(Debug, Clone, Copy, PartialEq, Eq, Structural)]
pub struct EncodeObject {
    pub index_offset: u32,
    pub index_count: u32,
    pub material_length: u32,
    pub reserved: u32,
}

impl EncodeObject {
    /// A group descriptor with every field zero, the state of reserved or
    /// not-yet-filled table entries.
    pub fn empty() -> (r: EncodeObject)
        ensures
            r.index_offset == 0,
            r.index_count == 0,
            r.material_length == 0,
            r.reserved == 0,
    {
        EncodeObject { index_offset: 0, index_count: 0, material_length: 0, reserved: 0 }
    }
}

} // verus!
