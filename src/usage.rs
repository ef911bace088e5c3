//! What a device buffer may be used for, and how large it is.
use vstd::prelude::*;

verus! {

/// Bit of a buffer that can be the source of a copy (read back to the host).
pub const COPY_SRC_BIT: u32 = 4;

/// Bit of a buffer that can be the destination of a copy or a clear.
pub const COPY_DST_BIT: u32 = 8;

/// Bit of a buffer that kernels can read and write as storage.
pub const STORAGE_BIT: u32 = 128;

/// A set of buffer capabilities, one bit per capability, laid out as the
/// device API lays them out.
#[derive(Clone, Copy, Debug, PartialEq, Eq, Structural)]
pub struct BufferUsages {
    pub bits: u32,
}

impl BufferUsages {
    /// Every capability of `other` is among those of `self`.
    pub open spec fn has(self, other: BufferUsages) -> bool {
        self.bits & other.bits == other.bits
    }

    pub fn copy_src() -> (r: BufferUsages)
        ensures
            r.bits == COPY_SRC_BIT,
    {
        BufferUsages { bits: COPY_SRC_BIT }
    }

    pub fn copy_dst() -> (r: BufferUsages)
        ensures
            r.bits == COPY_DST_BIT,
    {
        BufferUsages { bits: COPY_DST_BIT }
    }

    pub fn storage() -> (r: BufferUsages)
        ensures
            r.bits == STORAGE_BIT,
    {
        BufferUsages { bits: STORAGE_BIT }
    }

    /// The capabilities of both sets.
    pub fn union(self, other: BufferUsages) -> (r: BufferUsages)
        ensures
            r.bits == self.bits | other.bits,
    {
        BufferUsages { bits: self.bits | other.bits }
    }

    /// Whether every capability of `other` is among those of `self`.
    pub fn contains(&self, other: BufferUsages) -> (r: bool)
        ensures
            r == self.has(other),
    {
        self.bits & other.bits == other.bits
    }
}

/// A device buffer as the engine sees it: its capabilities and its size in
/// bytes.
#[derive(Clone, Copy, Debug, PartialEq, Eq, Structural)]
pub struct BufferDescriptor {
    pub usage: BufferUsages,
    pub size: u64,
}

impl BufferDescriptor {
    /// Number of whole `u32` elements the buffer holds.
    pub open spec fn len_spec(self) -> int {
        self.size as int / 4
    }
}

} // verus!
