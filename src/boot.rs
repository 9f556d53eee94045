//! What the boot stub hands to the kernel, and the addresses it computes for
//! the jump into the kernel.

use vstd::prelude::*;
use crate::addr::{OFFSET, PAGE_SIZE};

verus! {

/// Number of pages of the kernel's boot stack.
pub const KERNEL_STACK_PAGES: u64 = 16;

/// Extra room asked for the firmware memory map, which may grow before boot
/// services are left.
pub const MEMORY_MAP_SLACK: u64 = 256;

/// The firmware memory map as the kernel reads it: `len` descriptors from
/// address `ptr`, `size` bytes apart. It walks the map as it is read.
#[derive(Copy, Clone, Debug, PartialEq, Eq, Structural)]
pub struct MemoryMap {
    ptr: u64,
    size: u64,
    len: u64,
}

impl MemoryMap {
    pub closed spec fn ptr_spec(self) -> u64 {
        self.ptr
    }

    pub closed spec fn stride_spec(self) -> u64 {
        self.size
    }

    pub closed spec fn len_spec(self) -> u64 {
        self.len
    }

    /// The map of `len` descriptors from `ptr`, `size` bytes apart.
    pub fn new(ptr: u64, size: u64, len: u64) -> (r: MemoryMap)
        ensures
            r.ptr_spec() == ptr,
            r.stride_spec() == size,
            r.len_spec() == len,
    {
        MemoryMap { ptr, size, len }
    }

    /// Address of the next descriptor, if any is left.
    pub fn next(&mut self) -> (r: Option<u64>)
        ensures
            old(self).len_spec() == 0 ==> r is None && *final(self) == *old(self),
            old(self).len_spec() > 0 ==> r == Some(old(self).ptr_spec()) && final(self).ptr_spec()
                == (old(self).ptr_spec() + old(self).stride_spec()) % 0x1_0000_0000_0000_0000
                && final(self).len_spec() == old(self).len_spec() - 1 && final(self).stride_spec()
                == old(self).stride_spec(),
    {
        if self.len == 0 {
            return None;
        }
        let current = self.ptr;
        self.ptr = self.ptr.wrapping_add(self.size);
        self.len = self.len - 1;
        Some(current)
    }

    /// Number of descriptors left, as a lower and an upper bound.
    pub fn size_hint(&self) -> (r: (u64, Option<u64>))
        ensures
            r == (self.len_spec(), Some(self.len_spec())),
    {
        (self.len, Some(self.len))
    }
}

/// Registers and values for the jump from the boot stub into the kernel, all
/// as the kernel's page table sees them.
#[derive(Copy, Clone, Debug, PartialEq, Eq, Structural)]
pub struct Handoff {
    /// Stack pointer: the top of the boot stack in the offset mapping.
    pub rsp: u64,
    /// First argument: the boot information in the offset mapping.
    pub rdi: u64,
    /// Entry point of the kernel.
    pub entry: u64,
    /// The firmware memory map in the offset mapping.
    pub memory_map: MemoryMap,
}

/// Compute the hand-off from the physical addresses the firmware gave: the
/// boot stack of `KERNEL_STACK_PAGES` pages at `stack`, the boot information
/// at `boot_info`, and the memory map buffer at `memory_map`, whose first two
/// descriptors lie at `first` and `second` (the firmware's descriptors may be
/// larger than the published layout, so the stride is measured).
pub fn handoff(
    stack: u64,
    boot_info: u64,
    entry: u64,
    memory_map: u64,
    first: u64,
    second: u64,
    count: u64,
) -> (r: Handoff)
    requires
        stack + KERNEL_STACK_PAGES * PAGE_SIZE + OFFSET <= u64::MAX,
        boot_info + OFFSET <= u64::MAX,
        memory_map + OFFSET <= u64::MAX,
        first <= second,
    ensures
        r.rsp == stack + KERNEL_STACK_PAGES * PAGE_SIZE + OFFSET,
        r.rdi == boot_info + OFFSET,
        r.entry == entry,
        r.memory_map.ptr_spec() == memory_map + OFFSET,
        r.memory_map.stride_spec() == second - first,
        r.memory_map.len_spec() == count,
{
    Handoff {
        rsp: stack + KERNEL_STACK_PAGES * PAGE_SIZE + OFFSET,
        rdi: boot_info + OFFSET,
        entry,
        memory_map: MemoryMap::new(memory_map + OFFSET, second - first, count),
    }
}

/// Size of the buffer asked for the memory map, given its current size.
pub fn memory_map_buffer_size(current: u64) -> (r: u64)
    requires
        current + MEMORY_MAP_SLACK <= u64::MAX,
    ensures
        r == current + MEMORY_MAP_SLACK,
{
    current + MEMORY_MAP_SLACK
}

} // verus!
