//! Hardware-defined 32-bit page-directory and page-table records.
//! The bit positions are an instruction-set contract: bit 0 present,
//! bit 1 read/write, bit 2 user/supervisor, bit 3 write-through,
//! bit 4 cache-disable, bit 5 accessed, bit 6 dirty (table entries) or
//! free for the OS (directory entries), bit 7 page-attribute-table
//! (table) or page-size (directory), bits 8-11 OS-available flags,
//! bits 12-31 the page-aligned physical frame address.

use vstd::prelude::*;

verus! {

use crate::ferramenta;
use crate::ferramenta::nth_bit32;

#[derive(Debug, Clone, Copy, PartialEq, Eq, Structural)]
pub struct DirectoryEntry {
    pub value: u32,
}

impl DirectoryEntry {
    // Bits 31-12: physical address of the page table this entry maps.
    pub fn get_addr(&self) -> (r: u32)
        ensures
            r == self.value & 0xffff_f000u32,
    {
        self.value & 0xfffff000
    }

    pub fn set_addr(&mut self, addr: u32)
        ensures
            final(self).value == (old(self).value & 0xfffu32) | addr,
    {
        self.value &= 0xfff;
        self.value |= addr;
    }

    // Bits 11-8 are available for the OS to use freely.
    pub fn get_flags(&self) -> (r: u8)
        ensures
            r == ((self.value >> 8u32) & 0xfu32) as u8,
    {
        proof {
            let v: u32 = self.value;
            assert((v << 20u32) >> 28u32 == (v >> 8u32) & 0xfu32) by (bit_vector);
            assert((v >> 8u32) & 0xfu32 < 0x100) by (bit_vector);
        }
        ((self.value << 20) >> 28) as u8
    }

    pub fn set_flags(&mut self, flags: u8)
        ensures
            final(self).value == (old(self).value & 0xffff_f0ffu32) | ((flags as u32) << 8u32),
    {
        self.value &= 0xffff_f0ff;
        self.value |= (flags as u32) << 8;
    }

    // Bit 7: page size; set means the entry maps a 4 MiB page rather
    // than a page table. Kept clear here.
    pub fn get_ps(&self) -> (r: bool)
        ensures
            r == nth_bit32(self.value, 7),
    {
        ferramenta::get_bit_at(self.value, 7)
    }

    pub fn set_ps(&mut self, value: bool)
        ensures
            final(self).value == (if value {
                old(self).value | (1u32 << 7u32)
            } else {
                old(self).value & !(1u32 << 7u32)
            }),
    {
        ferramenta::set_bit(&mut self.value, value, 7);
    }

    // Bit 6 is available for the OS to use freely.
    pub fn get_flag2(&self) -> (r: bool)
        ensures
            r == nth_bit32(self.value, 6),
    {
        ferramenta::get_bit_at(self.value, 6)
    }

    pub fn set_flag2(&mut self, value: bool)
        ensures
            final(self).value == (if value {
                old(self).value | (1u32 << 6u32)
            } else {
                old(self).value & !(1u32 << 6u32)
            }),
    {
        ferramenta::set_bit(&mut self.value, value, 6);
    }

    // Bit 5: set by the hardware when the entry is read during
    // translation; cleared only by the OS.
    pub fn get_accessed(&self) -> (r: bool)
        ensures
            r == nth_bit32(self.value, 5),
    {
        ferramenta::get_bit_at(self.value, 5)
    }

    pub fn set_accessed(&mut self, value: bool)
        ensures
            final(self).value == (if value {
                old(self).value | (1u32 << 5u32)
            } else {
                old(self).value & !(1u32 << 5u32)
            }),
    {
        ferramenta::set_bit(&mut self.value, value, 5);
    }

    // Bit 4: cache disable.
    pub fn get_pcd(&self) -> (r: bool)
        ensures
            r == nth_bit32(self.value, 4),
    {
        ferramenta::get_bit_at(self.value, 4)
    }

    pub fn set_pcd(&mut self, value: bool)
        ensures
            final(self).value == (if value {
                old(self).value | (1u32 << 4u32)
            } else {
                old(self).value & !(1u32 << 4u32)
            }),
    {
        ferramenta::set_bit(&mut self.value, value, 4);
    }

    // Bit 3: write-through caching when set, write-back otherwise.
    pub fn get_pwt(&self) -> (r: bool)
        ensures
            r == nth_bit32(self.value, 3),
    {
        ferramenta::get_bit_at(self.value, 3)
    }

    pub fn set_pwt(&mut self, value: bool)
        ensures
            final(self).value == (if value {
                old(self).value | (1u32 << 3u32)
            } else {
                old(self).value & !(1u32 << 3u32)
            }),
    {
        ferramenta::set_bit(&mut self.value, value, 3);
    }

    // Bit 2: user/supervisor access control.
    pub fn get_us(&self) -> (r: bool)
        ensures
            r == nth_bit32(self.value, 2),
    {
        ferramenta::get_bit_at(self.value, 2)
    }

    pub fn set_us(&mut self, value: bool)
        ensures
            final(self).value == (if value {
                old(self).value | (1u32 << 2u32)
            } else {
                old(self).value & !(1u32 << 2u32)
            }),
    {
        ferramenta::set_bit(&mut self.value, value, 2);
    }

    // Bit 1: read/write permission.
    pub fn get_rw(&self) -> (r: bool)
        ensures
            r == nth_bit32(self.value, 1),
    {
        ferramenta::get_bit_at(self.value, 1)
    }

    pub fn set_rw(&mut self, value: bool)
        ensures
            final(self).value == (if value {
                old(self).value | (1u32 << 1u32)
            } else {
                old(self).value & !(1u32 << 1u32)
            }),
    {
        ferramenta::set_bit(&mut self.value, value, 1);
    }

    // Bit 0: whether the mapped page is present in physical memory.
    pub fn get_present(&self) -> (r: bool)
        ensures
            r == nth_bit32(self.value, 0),
    {
        ferramenta::get_bit_at(self.value, 0)
    }

    pub fn set_present(&mut self, value: bool)
        ensures
            final(self).value == (if value {
                old(self).value | 1u32
            } else {
                old(self).value & !1u32
            }),
    {
        proof {
            assert(1u32 << 0u32 == 1u32) by (bit_vector);
        }
        ferramenta::set_bit(&mut self.value, value, 0);
    }

    pub fn reset(&mut self)
        ensures
            final(self).value == 0,
    {
        self.value = 0;
    }
}

#[derive(Debug, Clone, Copy, PartialEq, Eq, Structural)]
pub struct TableEntry {
    pub value: u32,
}

impl TableEntry {
    // Bits 31-12: physical address of the mapped frame.
    pub fn get_addr(&self) -> (r: u32)
        ensures
            r == self.value & 0xffff_f000u32,
    {
        self.value & 0xfffff000
    }

    pub fn set_addr(&mut self, addr: u32)
        ensures
            final(self).value == (old(self).value & 0xfffu32) | addr,
    {
        self.value &= 0xfff;
        self.value |= addr;
    }

    // Bits 11-9 are available for the OS to use freely.
    pub fn get_flags(&self) -> (r: u8)
        ensures
            r == ((self.value >> 9u32) & 0x7u32) as u8,
    {
        proof {
            let v: u32 = self.value;
            assert((v << 20u32) >> 29u32 == (v >> 9u32) & 0x7u32) by (bit_vector);
            assert((v >> 9u32) & 0x7u32 < 0x100) by (bit_vector);
        }
        ((self.value << 20) >> 29) as u8
    }

    pub fn set_flags(&mut self, flags: u8)
        ensures
            final(self).value == (old(self).value & 0xffff_f8ffu32) | ((flags as u32) << 8u32),
    {
        self.value &= 0b1111_1111_1111_1111_1111_1000_1111_1111;
        self.value |= (flags as u32) << 8;
    }

    // Bit 8: global; the TLB entry survives a CR3 reload when set.
    pub fn get_global(&self) -> (r: bool)
        ensures
            r == nth_bit32(self.value, 8),
    {
        ferramenta::get_bit_at(self.value, 8)
    }

    pub fn set_global(&mut self, value: bool)
        ensures
            final(self).value == (if value {
                old(self).value | (1u32 << 8u32)
            } else {
                old(self).value & !(1u32 << 8u32)
            }),
    {
        ferramenta::set_bit(&mut self.value, value, 8);
    }

    // Bit 7: page-attribute-table selector.
    pub fn get_pat(&self) -> (r: bool)
        ensures
            r == nth_bit32(self.value, 7),
    {
        ferramenta::get_bit_at(self.value, 7)
    }

    pub fn set_pat(&mut self, value: bool)
        ensures
            final(self).value == (if value {
                old(self).value | (1u32 << 7u32)
            } else {
                old(self).value & !(1u32 << 7u32)
            }),
    {
        ferramenta::set_bit(&mut self.value, value, 7);
    }

    // Bit 6: set by the hardware when the page is written to.
    pub fn get_dirty(&self) -> (r: bool)
        ensures
            r == nth_bit32(self.value, 6),
    {
        ferramenta::get_bit_at(self.value, 6)
    }

    pub fn set_dirty(&mut self, value: bool)
        ensures
            final(self).value == (if value {
                old(self).value | (1u32 << 6u32)
            } else {
                old(self).value & !(1u32 << 6u32)
            }),
    {
        ferramenta::set_bit(&mut self.value, value, 6);
    }

    // Bit 5: set by the hardware when the entry is read during
    // translation; cleared only by the OS.
    pub fn get_accessed(&self) -> (r: bool)
        ensures
            r == nth_bit32(self.value, 5),
    {
        ferramenta::get_bit_at(self.value, 5)
    }

    pub fn set_accessed(&mut self, value: bool)
        ensures
            final(self).value == (if value {
                old(self).value | (1u32 << 5u32)
            } else {
                old(self).value & !(1u32 << 5u32)
            }),
    {
        ferramenta::set_bit(&mut self.value, value, 5);
    }

    // Bit 4: cache disable.
    pub fn get_pcd(&self) -> (r: bool)
        ensures
            r == nth_bit32(self.value, 4),
    {
        ferramenta::get_bit_at(self.value, 4)
    }

    pub fn set_pcd(&mut self, value: bool)
        ensures
            final(self).value == (if value {
                old(self).value | (1u32 << 4u32)
            } else {
                old(self).value & !(1u32 << 4u32)
            }),
    {
        ferramenta::set_bit(&mut self.value, value, 4);
    }

    // Bit 3: write-through caching when set, write-back otherwise.
    pub fn get_pwt(&self) -> (r: bool)
        ensures
            r == nth_bit32(self.value, 3),
    {
        ferramenta::get_bit_at(self.value, 3)
    }

    pub fn set_pwt(&mut self, value: bool)
        ensures
            final(self).value == (if value {
                old(self).value | (1u32 << 3u32)
            } else {
                old(self).value & !(1u32 << 3u32)
            }),
    {
        ferramenta::set_bit(&mut self.value, value, 3);
    }

    // Bit 2: user/supervisor access control.
    pub fn get_us(&self) -> (r: bool)
        ensures
            r == nth_bit32(self.value, 2),
    {
        ferramenta::get_bit_at(self.value, 2)
    }

    pub fn set_us(&mut self, value: bool)
        ensures
            final(self).value == (if value {
                old(self).value | (1u32 << 2u32)
            } else {
                old(self).value & !(1u32 << 2u32)
            }),
    {
        ferramenta::set_bit(&mut self.value, value, 2);
    }

    // Bit 1: read/write permission.
    pub fn get_rw(&self) -> (r: bool)
        ensures
            r == nth_bit32(self.value, 1),
    {
        ferramenta::get_bit_at(self.value, 1)
    }

    pub fn set_rw(&mut self, value: bool)
        ensures
            final(self).value == (if value {
                old(self).value | (1u32 << 1u32)
            } else {
                old(self).value & !(1u32 << 1u32)
            }),
    {
        ferramenta::set_bit(&mut self.value, value, 1);
    }

    // Bit 0: whether the mapped frame is present in physical memory.
    pub fn get_present(&self) -> (r: bool)
        ensures
            r == nth_bit32(self.value, 0),
    {
        ferramenta::get_bit_at(self.value, 0)
    }

    pub fn set_present(&mut self, value: bool)
        ensures
            final(self).value == (if value {
                old(self).value | 1u32
            } else {
                old(self).value & !1u32
            }),
    {
        proof {
            assert(1u32 << 0u32 == 1u32) by (bit_vector);
        }
        ferramenta::set_bit(&mut self.value, value, 0);
    }

    pub fn reset(&mut self)
        ensures
            final(self).value == 0,
    {
        self.value = 0;
    }
}

} // verus!
