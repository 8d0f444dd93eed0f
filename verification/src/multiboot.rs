//! Plain-value model of the boot-information records the memory
//! subsystem consumes: one physical-memory-region descriptor per
//! entry, plus the bootloader magic check.

use vstd::prelude::*;

verus! {

/// The multiboot2 bootloader magic value.
pub const BOOTLOADER_MAGIC: u32 = 0x36d76289;

/// Region type tag for memory reported available by the bootloader.
pub const MULTIBOOT_MEMORY_AVAILABLE: u32 = 1;

/// One physical-memory-region descriptor from the boot information,
/// already read out of the raw multiboot2 structure into plain values.
#[derive(Debug, Clone, Copy, PartialEq, Eq, Structural)]
pub struct MultibootMmapEntry {
    pub addr: u32,
    pub addr_upper: u32,
    pub len: u32,
    pub len_upper: u32,
    pub tag_type: u32,
    pub zero: u32,
}

pub fn check_magic(magic: u32) -> (r: bool)
    ensures
        r == (magic == BOOTLOADER_MAGIC),
{
    magic == BOOTLOADER_MAGIC
}

} // verus!
