use vstd::prelude::*;

verus! {

/// Number of bytes in one physical page frame.
pub const PAGE_SIZE: usize = 4096;

/// Identifier of one physical page frame: frame `n` covers the byte
/// addresses `[n * PAGE_SIZE, (n + 1) * PAGE_SIZE)`.
#[derive(Clone, Copy, PartialEq, Eq, Structural, Debug)]
pub struct Frame {
    pub number: usize,
}

impl Frame {
    /// The frame that covers the given physical address.
    pub fn containing_address(address: usize) -> (f: Frame)
        ensures
            f.number == address / PAGE_SIZE,
    {
        Frame { number: address / PAGE_SIZE }
    }

    /// The index of this frame.
    pub fn number(&self) -> (n: usize)
        ensures
            n == self.number,
    {
        self.number
    }
}

/// One record of the firmware-reported memory map: a physical range starting
/// at `base_addr`, `length` bytes long, with the firmware's type tag.  The
/// allocator reads only the addresses; the type tag is carried through for
/// callers that inspect the map themselves.
#[derive(Clone, Copy, PartialEq, Eq, Structural, Debug)]
pub struct MemoryRegion {
    pub base_addr: u64,
    pub length: u64,
    pub typ: u32,
}

/// Address one past the end of a region.
pub open spec fn region_end(r: MemoryRegion) -> int {
    r.base_addr + r.length
}

/// The index of the frame that covers address `addr`.
pub open spec fn frame_of(addr: int) -> int {
    addr / (PAGE_SIZE as int)
}

} // verus!
