//! Two-level page-table manager: one page directory of 1024 entries,
//! page tables allocated lazily from the physical frame allocator, and
//! the bookkeeping of the growable heap region (`heap_start`, the first
//! non-identity mapping, and `last_mapped`, its high-water mark).

use vstd::prelude::*;

verus! {

use crate::ferramenta::nth_bit32;
use crate::memory;
use crate::memory::{MemorySpace, PAGE_SIZE, KERNEL_SPACE_START, KERNEL_SPACE_RANGE};
use crate::page::{DirectoryEntry, TableEntry};
use crate::pageframe;

pub const PDE_PRESENT: usize = 0b0000_0001;

pub const PDE_RW: usize = 0b0000_0010;

pub const PDE_US: usize = 0b0000_0100;

pub const PDE_PWT: usize = 0b0000_1000;

pub const PDE_PCD: usize = 0b0001_0000;

pub const PDE_ACCESSED: usize = 0b0010_0000;

pub const PDE_FLAG2: usize = 0b0100_0000;

pub const PDE_PS: usize = 0b1000_0000;

pub const PTE_PRESENT: usize = 0b0000_0001;

pub const PTE_RW: usize = 0b0000_0010;

pub const PTE_US: usize = 0b0000_0100;

pub const PTE_PWT: usize = 0b0000_1000;

pub const PTE_PCD: usize = 0b0001_0000;

pub const PTE_ACCESSED: usize = 0b0010_0000;

pub const PTE_DIRTY: usize = 0b0100_0000;

pub const PTE_PAT: usize = 0b1000_0000;

pub const PTE_GLOBAL: usize = 0b1_0000_0000;

/// Page-directory index of a virtual address (top 10 bits).
pub open spec fn pdi_of(v: int) -> int {
    v / 0x40_0000
}

/// Page-table index of a virtual address (middle 10 bits).
pub open spec fn pti_of(v: int) -> int {
    (v / 0x1000) % 0x400
}

/// Outcome of a `memory_map` call.
#[derive(Debug, Clone, Copy, PartialEq, Eq, Structural)]
pub enum MapResult {
    /// The leaf translation was written.
    Mapped,
    /// The leaf was already present; the call changed no translation.
    AlreadyMapped,
    /// No free kernel frame was left for a new page table.
    OutOfFrames,
}

pub struct Manager {
    pub page_directory: Vec<DirectoryEntry>,
    /// One owned page table per directory slot; an absent table is the
    /// empty vector, a present one holds its 1024 entries. The slot of
    /// the recursive self-mapping owns no table.
    pub tables: Vec<Vec<TableEntry>>,
    pub paging_enabled: bool,
    pub flags: usize,
    pub memory_start: usize,
    pub page_count: usize,
    pub heap_start: usize,
    pub last_mapped: usize,
}

impl Manager {
    /// Directory slot `pdi` has a page table installed.
    pub open spec fn dir_present(self, pdi: int) -> bool {
        nth_bit32(self.page_directory@[pdi].value, 0)
    }

    /// The leaf translation for `v` is present.
    pub open spec fn mapping_present(self, v: int) -> bool {
        &&& self.dir_present(pdi_of(v))
        &&& nth_bit32(self.tables@[pdi_of(v)]@[pti_of(v)].value, 0)
    }

    /// The physical address the present leaf for `v` translates to.
    pub open spec fn translation(self, v: int) -> u32 {
        self.tables@[pdi_of(v)]@[pti_of(v)].value & 0xffff_f000u32
    }

    pub open spec fn wf(self) -> bool {
        &&& self.page_directory@.len() == 1024
        &&& self.tables@.len() == 1024
        &&& forall|i: int|
            0 <= i < 1023 ==> (#[trigger] self.tables@[i]@.len()) == (if self.dir_present(i) {
                1024int
            } else {
                0int
            })
        &&& self.tables@[1023]@.len() == 0
    }

    /// The placeholder value used before memory initialization runs.
    pub fn uninitialized() -> (r: Manager)
        ensures
            r.page_directory@.len() == 0,
            r.tables@.len() == 0,
            !r.paging_enabled,
            r.flags == 0,
            r.memory_start == 0,
            r.page_count == 0,
            r.heap_start == 0,
            r.last_mapped == 0,
    {
        Manager {
            page_directory: Vec::new(),
            tables: Vec::new(),
            paging_enabled: false,
            flags: 0,
            memory_start: 0,
            page_count: 0,
            heap_start: 0,
            last_mapped: 0,
        }
    }

    /// Builds the manager over a zeroed directory frame at `addr` and
    /// installs the recursive self-mapping: the last directory slot
    /// points back at the directory's own frame, read/write and
    /// present, giving the kernel a stable virtual window onto the
    /// live page tables once paging is on.
    pub fn new(addr: usize, flags: usize) -> (r: Manager)
        requires
            addr as int % PAGE_SIZE as int == 0,
            addr <= 0xffff_f000,
        ensures
            r.wf(),
            forall|i: int| 0 <= i < 1023 ==> (#[trigger] r.page_directory@[i].value) == 0,
            forall|i: int| 0 <= i < 1023 ==> !r.dir_present(i),
            r.page_directory@[1023].value == (addr as u32) | 3u32,
            r.dir_present(1023),
            r.page_directory@[1023].value & 0xffff_f000u32 == addr as u32,
            !r.paging_enabled,
            r.flags == flags,
            r.memory_start == 0,
            r.page_count == 0,
            r.heap_start == 0,
            r.last_mapped == 0,
    {
        let mut page_directory: Vec<DirectoryEntry> = Vec::new();
        let mut tables: Vec<Vec<TableEntry>> = Vec::new();
        let mut i: usize = 0;
        while i < 1024
            invariant
                i <= 1024,
                page_directory@.len() == i,
                tables@.len() == i,
                forall|k: int| 0 <= k < i ==> (#[trigger] page_directory@[k].value) == 0,
                forall|k: int| 0 <= k < i ==> (#[trigger] tables@[k]@.len()) == 0,
            decreases 1024 - i,
        {
            page_directory.push(DirectoryEntry { value: 0 });
            tables.push(Vec::new());
            i += 1;
        }
        let mut last = DirectoryEntry { value: 0 };
        last.set_addr(addr as u32);
        last.set_rw(true);
        last.set_present(true);
        proof {
            let a: u32 = addr as u32;
            assert(((0u32 & 0xfffu32 | a) | (1u32 << 1u32)) | 1u32 == a | 3u32) by (bit_vector);
            assert(a % 4096 == 0 ==> ((a | 3u32) & 0xffff_f000u32 == a && nth_bit32(a | 3u32, 0)))
                by (bit_vector);
            assert((addr as u32) % 4096 == 0);
        }
        page_directory[1023] = last;
        let manager = Manager {
            page_directory,
            tables,
            paging_enabled: false,
            flags,
            memory_start: 0,
            page_count: 0,
            heap_start: 0,
            last_mapped: 0,
        };
        proof {
            assert(forall|i: int| 0 <= i < 1023 ==> !nth_bit32(0u32, 0) ==> !manager.dir_present(
                i,
            ));
            assert(!nth_bit32(0u32, 0)) by (bit_vector);
        }
        manager
    }

    /// After the boot sequence turns hardware paging on, the directory
    /// is addressed through its recursively-mapped virtual window
    /// rather than its physical location; only bookkeeping changes.
    pub fn enable_paging(&mut self)
        ensures
            final(self).paging_enabled,
            final(self).page_directory == old(self).page_directory,
            final(self).tables == old(self).tables,
            final(self).flags == old(self).flags,
            final(self).memory_start == old(self).memory_start,
            final(self).page_count == old(self).page_count,
            final(self).heap_start == old(self).heap_start,
            final(self).last_mapped == old(self).last_mapped,
    {
        self.paging_enabled = true;
    }

    /// Virtual or physical address under which the page table of
    /// directory slot `index` is reachable: through the recursive
    /// window once paging is on, through the entry's physical address
    /// before that.
    fn address(&self, page_directory_index: usize) -> (r: u32)
        requires
            self.page_directory@.len() == 1024,
            page_directory_index < 1024,
        ensures
            self.paging_enabled ==> r == 0xffc0_0000u32 + 0x1000u32 * page_directory_index as u32,
            !self.paging_enabled ==> r == self.page_directory@[page_directory_index as int].value
                & 0xffff_f000u32,
    {
        if self.paging_enabled {
            0xffc0_0000 + 0x1000 * (page_directory_index as u32)
        } else {
            let page_directory_entry = &self.page_directory[page_directory_index];
            page_directory_entry.get_addr()
        }
    }

    /// Installs a fresh zeroed page table in directory slot `index`
    /// the first time the slot is touched; a slot that already has one
    /// is left alone. Returns `false` when no free kernel frame is
    /// left to hold the new table.
    fn create_page_directory_entry(
        &mut self,
        index: usize,
        alloc: &mut pageframe::Allocator,
    ) -> (ok: bool)
        requires
            old(self).wf(),
            old(alloc).wf(),
            index < 1023,
            KERNEL_SPACE_START + KERNEL_SPACE_RANGE <= old(alloc).bitmap.size,
        ensures
            final(self).wf(),
            final(alloc).wf(),
            final(self).paging_enabled == old(self).paging_enabled,
            final(self).flags == old(self).flags,
            final(self).memory_start == old(self).memory_start,
            final(self).page_count == old(self).page_count,
            final(self).heap_start == old(self).heap_start,
            final(self).last_mapped == old(self).last_mapped,
            old(self).dir_present(index as int) ==> ok && *final(self) == *old(self)
                && *final(alloc) == *old(alloc),
            !ok ==> *final(self) == *old(self) && *final(alloc) == *old(alloc) && forall|i: int|
                old(alloc).candidate(MemorySpace::Kernel, 1, i) ==> old(alloc).bitmap@[i],
            !old(self).dir_present(index as int) && ok ==> {
                &&& final(self).dir_present(index as int)
                &&& forall|d: int|
                    0 <= d < 1024 && d != index ==> final(self).page_directory@[d]
                        == old(self).page_directory@[d] && final(self).tables@[d]
                        == old(self).tables@[d]
                &&& final(self).tables@[index as int]@.len() == 1024
                &&& forall|t: int|
                    0 <= t < 1024 ==> (#[trigger] final(self).tables@[index as int]@[t].value) == 0
                &&& final(alloc).bitmap.size == old(alloc).bitmap.size
                &&& final(alloc).bitmap.buffer@.len() == old(alloc).bitmap.buffer@.len()
                &&& final(alloc).reserved_mem == old(alloc).reserved_mem
                &&& final(alloc).locked_mem == old(alloc).locked_mem + PAGE_SIZE
                &&& final(alloc).free_mem == old(alloc).free_mem - PAGE_SIZE
                &&& final(alloc).is_initialized() == old(alloc).is_initialized()
                &&& forall|j: int|
                    0 <= j < old(alloc).bitmap@.len() && old(alloc).bitmap@[j]
                        ==> final(alloc).bitmap@[j]
                &&& exists|f: int|
                    {
                        &&& old(alloc).candidate(MemorySpace::Kernel, 1, f)
                        &&& !old(alloc).bitmap@[f]
                        &&& forall|i: int|
                            old(alloc).candidate(MemorySpace::Kernel, 1, i) && i < f ==> old(
                                alloc,
                            ).bitmap@[i]
                        &&& final(alloc).bitmap@ == old(alloc).bitmap@.update(f, true)
                    }
            },
    {
        let present = self.page_directory[index].get_present();
        if !present {
            let frame = alloc.request_free_page(MemorySpace::Kernel);
            if frame == 0 {
                return false;
            }
            let mut entry = DirectoryEntry { value: 0 };
            entry.reset();
            entry.set_addr(frame as u32);
            entry.value = entry.value | ((self.flags as u32) & 0xFFF);
            entry.set_present(true);
            proof {
                let v: u32 = entry.value;
                assert(nth_bit32(v, 0) == (v & 1u32 != 0)) by (bit_vector);
                let fr: u32 = frame as u32;
                let fl: u32 = (self.flags as u32) & 0xFFF;
                assert((((0u32 & 0xfffu32 | fr) | fl) | 1u32) & 1u32 != 0) by (bit_vector);
            }
            self.page_directory[index] = entry;
            let mut table: Vec<TableEntry> = Vec::new();
            let mut t: usize = 0;
            while t < 1024
                invariant
                    t <= 1024,
                    table@.len() == t,
                    forall|k: int| 0 <= k < t ==> (#[trigger] table@[k].value) == 0,
                decreases 1024 - t,
            {
                table.push(TableEntry { value: 0 });
                t += 1;
            }
            self.tables[index] = table;
        }
        true
    }

    /// Writes the leaf translation `pti` in the page table of slot
    /// `pdi`, unless a translation is already present there: an
    /// existing leaf is never overwritten, whatever its target.
    /// Returns whether the leaf was written.
    fn create_page_table_entry(
        &mut self,
        page_directory_index: usize,
        page_table_index: usize,
        physical_address: usize,
    ) -> (wrote: bool)
        requires
            old(self).wf(),
            page_directory_index < 1023,
            page_table_index < 1024,
            old(self).dir_present(page_directory_index as int),
            physical_address <= 0xffff_f000,
            physical_address as int % PAGE_SIZE as int == 0,
        ensures
            final(self).wf(),
            final(self).page_directory == old(self).page_directory,
            final(self).paging_enabled == old(self).paging_enabled,
            final(self).flags == old(self).flags,
            final(self).memory_start == old(self).memory_start,
            final(self).page_count == old(self).page_count,
            final(self).heap_start == old(self).heap_start,
            final(self).last_mapped == old(self).last_mapped,
            wrote == !nth_bit32(
                old(self).tables@[page_directory_index as int]@[page_table_index as int].value,
                0,
            ),
            !wrote ==> final(self).tables@ == old(self).tables@,
            wrote ==> {
                &&& forall|d: int|
                    0 <= d < 1024 && d != page_directory_index ==> final(self).tables@[d]
                        == old(self).tables@[d]
                &&& forall|t: int|
                    0 <= t < 1024 && t != page_table_index
                        ==> (#[trigger] final(self).tables@[page_directory_index as int]@[t])
                        == old(self).tables@[page_directory_index as int]@[t]
                &&& final(self).tables@[page_directory_index as int]@[page_table_index as int].value
                    == (physical_address as u32) | ((old(self).flags as u32) & 0xFFFu32) | 1u32
                &&& nth_bit32(
                    final(self).tables@[page_directory_index as int]@[page_table_index as int].value,
                    0,
                )
                &&& final(self).tables@[page_directory_index as int]@[page_table_index as int].value
                    & 0xffff_f000u32 == physical_address as u32
            },
    {
        let flags_low: u32 = (self.flags as u32) & 0xFFF;
        let ghost old_tables = self.tables@;
        let page_table = &mut self.tables[page_directory_index];
        let cur = page_table[page_table_index];
        let present = cur.get_present();
        if !present {
            let mut entry = TableEntry { value: 0 };
            entry.reset();
            entry.set_addr(physical_address as u32);
            entry.value = entry.value | flags_low;
            entry.set_present(true);
            proof {
                let p: u32 = physical_address as u32;
                let f: u32 = flags_low;
                assert((((0u32 & 0xfffu32 | p) | f) | 1u32) == (p | f | 1u32)) by (bit_vector);
                assert(p % 4096 == 0 && f == f & 0xfffu32 ==> (nth_bit32(p | f | 1u32, 0) && (p | f
                    | 1u32) & 0xffff_f000u32 == p)) by (bit_vector);
                let g: u32 = old(self).flags as u32;
                assert(f == g & 0xFFFu32);
                assert(g & 0xFFFu32 == (g & 0xFFFu32) & 0xfffu32) by (bit_vector);
                assert((physical_address as u32) % 4096 == 0);
            }
            page_table[page_table_index] = entry;
        }
        proof {
            if !present {
                assert(final(self).tables@ =~= old_tables.update(
                    page_directory_index as int,
                    *final(page_table),
                ));
            } else {
                assert(old_tables.update(page_directory_index as int, *final(page_table))
                    =~= old_tables);
            }
        }
        !present
    }

    /// Maps virtual address `v_addr` to physical address `phys_addr`,
    /// allocating the page table lazily. An already-present leaf makes
    /// the call a silent no-op that never overwrites the existing
    /// translation, even towards a different physical target. Tracks
    /// `heap_start` and `last_mapped` for every non-identity mapping.
    pub fn memory_map(
        &mut self,
        v_addr: usize,
        phys_addr: usize,
        alloc: &mut pageframe::Allocator,
    ) -> (r: MapResult)
        requires
            old(self).wf(),
            old(alloc).wf(),
            v_addr <= 0xffff_ffff,
            pdi_of(v_addr as int) != 1023,
            phys_addr <= 0xffff_f000,
            phys_addr as int % PAGE_SIZE as int == 0,
            KERNEL_SPACE_START + KERNEL_SPACE_RANGE <= old(alloc).bitmap.size,
        ensures
            final(self).wf(),
            final(alloc).wf(),
            final(self).paging_enabled == old(self).paging_enabled,
            final(self).flags == old(self).flags,
            final(self).memory_start == old(self).memory_start,
            final(self).page_count == old(self).page_count,
            r == MapResult::OutOfFrames ==> *final(self) == *old(self)
                && *final(alloc) == *old(alloc)
                && !old(self).dir_present(pdi_of(v_addr as int)) && forall|i: int|
                old(alloc).candidate(MemorySpace::Kernel, 1, i) ==> old(alloc).bitmap@[i],
            r != MapResult::OutOfFrames ==> {
                &&& v_addr != phys_addr ==> final(self).heap_start == (if old(self).heap_start == 0 {
                    v_addr as int
                } else {
                    old(self).heap_start as int
                }) && final(self).last_mapped == v_addr
                &&& v_addr == phys_addr ==> final(self).heap_start == old(self).heap_start
                    && final(self).last_mapped == old(self).last_mapped
            },
            r == MapResult::AlreadyMapped ==> old(self).mapping_present(v_addr as int)
                && final(self).tables@ == old(self).tables@
                && final(self).page_directory@ == old(self).page_directory@
                && *final(alloc) == *old(alloc),
            r == MapResult::Mapped ==> {
                &&& !old(self).mapping_present(v_addr as int)
                &&& final(self).mapping_present(v_addr as int)
                &&& final(self).translation(v_addr as int) == phys_addr as u32
                &&& forall|d: int|
                    0 <= d < 1024 && d != pdi_of(v_addr as int) ==> final(self).tables@[d]
                        == old(self).tables@[d]
                &&& forall|d: int|
                    0 <= d < 1024 && d != pdi_of(v_addr as int)
                        ==> (#[trigger] final(self).page_directory@[d])
                        == old(self).page_directory@[d]
                &&& old(self).dir_present(pdi_of(v_addr as int)) ==> forall|t: int|
                    0 <= t < 1024 && t != pti_of(v_addr as int)
                        ==> (#[trigger] final(self).tables@[pdi_of(v_addr as int)]@[t])
                        == old(self).tables@[pdi_of(v_addr as int)]@[t]
                &&& old(self).dir_present(pdi_of(v_addr as int)) ==> *final(alloc) == *old(alloc)
                    && final(self).page_directory@ == old(self).page_directory@
                &&& !old(self).dir_present(pdi_of(v_addr as int)) ==> forall|t: int|
                    0 <= t < 1024 && t != pti_of(v_addr as int)
                        ==> (#[trigger] final(self).tables@[pdi_of(v_addr as int)]@[t].value) == 0
                &&& !old(self).dir_present(pdi_of(v_addr as int)) ==> {
                    &&& final(alloc).locked_mem == old(alloc).locked_mem + PAGE_SIZE
                    &&& final(alloc).free_mem == old(alloc).free_mem - PAGE_SIZE
                    &&& exists|f: int|
                        {
                            &&& old(alloc).candidate(MemorySpace::Kernel, 1, f)
                            &&& !old(alloc).bitmap@[f]
                            &&& forall|i: int|
                                old(alloc).candidate(MemorySpace::Kernel, 1, i) && i < f ==> old(
                                    alloc,
                                ).bitmap@[i]
                            &&& final(alloc).bitmap@ == old(alloc).bitmap@.update(f, true)
                        }
                }
                &&& final(alloc).bitmap.size == old(alloc).bitmap.size
                &&& final(alloc).reserved_mem == old(alloc).reserved_mem
                &&& final(alloc).is_initialized() == old(alloc).is_initialized()
                &&& forall|j: int|
                    0 <= j < old(alloc).bitmap@.len() && old(alloc).bitmap@[j]
                        ==> final(alloc).bitmap@[j]
            },
    {
        let (pdi, pti): (usize, usize) = memory::page_map_indexer(v_addr);
        proof {
            assert(!nth_bit32(0u32, 0)) by (bit_vector);
        }
        let ok = self.create_page_directory_entry(pdi, alloc);
        if !ok {
            return MapResult::OutOfFrames;
        }
        let wrote = self.create_page_table_entry(pdi, pti, phys_addr);
        if v_addr != phys_addr {
            if self.heap_start == 0 {
                self.heap_start = v_addr;
            }
            self.last_mapped = v_addr;
        }
        if wrote {
            MapResult::Mapped
        } else {
            MapResult::AlreadyMapped
        }
    }

    /// The physical address the live tables currently translate
    /// `v_addr` to, or `0` when no mapping is present.
    pub fn translation_of(&self, v_addr: usize) -> (r: usize)
        requires
            self.wf(),
            v_addr <= 0xffff_ffff,
            pdi_of(v_addr as int) != 1023,
        ensures
            self.mapping_present(v_addr as int) ==> r == self.translation(v_addr as int),
            !self.mapping_present(v_addr as int) ==> r == 0,
    {
        let (pdi, pti): (usize, usize) = memory::page_map_indexer(v_addr);
        if !self.page_directory[pdi].get_present() {
            return 0;
        }
        let entry = self.tables[pdi][pti];
        if entry.get_present() {
            entry.get_addr() as usize
        } else {
            0
        }
    }

    /// Bytes of the growable heap region that are currently backed by
    /// mapped frames.
    pub fn heap_size(&self) -> (r: usize)
        requires
            self.last_mapped + 0xfff <= usize::MAX,
            self.heap_start <= self.last_mapped + 0xfff,
        ensures
            r == self.last_mapped + 0xfff - self.heap_start,
    {
        self.last_mapped + 0xfff - self.heap_start
    }

    /// Whether `n` bytes starting at `ptr` lie below the heap's
    /// current mapping ceiling.
    pub fn is_range_mapped(&self, ptr: usize, n: usize) -> (r: bool)
        requires
            self.last_mapped + PAGE_SIZE <= usize::MAX,
            ptr + n <= usize::MAX,
        ensures
            r == (ptr < self.last_mapped + PAGE_SIZE && ptr + n <= self.last_mapped + PAGE_SIZE),
    {
        if ptr >= self.last_mapped + PAGE_SIZE || ptr + n > self.last_mapped + PAGE_SIZE {
            false
        } else {
            true
        }
    }
}


/// A page-aligned 32-bit address is rebuilt exactly from its directory
/// and table indices, so two distinct aligned pages never share both.
pub proof fn lemma_page_decompose(v: int)
    requires
        0 <= v < 0x1_0000_0000,
        v % 0x1000 == 0,
    ensures
        v == 0x40_0000 * pdi_of(v) + 0x1000 * pti_of(v),
{
    let q = v / 0x1000;
    vstd::arithmetic::div_mod::lemma_fundamental_div_mod(v, 0x1000);
    vstd::arithmetic::div_mod::lemma_div_denominator(v, 0x1000, 0x400);
    assert(pdi_of(v) == q / 0x400);
    vstd::arithmetic::div_mod::lemma_fundamental_div_mod(q, 0x400);
    assert(q == 0x400 * (q / 0x400) + q % 0x400);
    assert(v == 0x1000 * q);
}

/// What `memory_map` guarantees of every page other than its target:
/// given the untouched-slots clauses of a call that mapped `v`, any
/// other page keeps its presence and its translation. A fresh table's
/// remaining leaves are zero and so not present.
pub proof fn lemma_other_leaf_kept(m0: Manager, m1: Manager, v: int, u: int)
    requires
        m0.wf(),
        m1.wf(),
        0 <= v < 0x1_0000_0000,
        v % 0x1000 == 0,
        pdi_of(v) != 1023,
        0 <= u < 0x1_0000_0000,
        u % 0x1000 == 0,
        pdi_of(u) != 1023,
        u != v,
        forall|d: int| 0 <= d < 1024 && d != pdi_of(v) ==> #[trigger] m1.tables@[d] == m0.tables@[d],
        forall|d: int|
            0 <= d < 1024 && d != pdi_of(v) ==> (#[trigger] m1.page_directory@[d])
                == m0.page_directory@[d],
        m0.dir_present(pdi_of(v)) ==> m1.page_directory@ == m0.page_directory@,
        m0.dir_present(pdi_of(v)) ==> forall|t: int|
            0 <= t < 1024 && t != pti_of(v) ==> (#[trigger] m1.tables@[pdi_of(v)]@[t])
                == m0.tables@[pdi_of(v)]@[t],
        !m0.dir_present(pdi_of(v)) ==> forall|t: int|
            0 <= t < 1024 && t != pti_of(v) ==> (#[trigger] m1.tables@[pdi_of(v)]@[t].value) == 0,
        !m0.dir_present(pdi_of(v)) ==> m1.dir_present(pdi_of(v)),
    ensures
        m1.mapping_present(u) == m0.mapping_present(u),
        m0.mapping_present(u) ==> m1.translation(u) == m0.translation(u),
{
    lemma_page_decompose(v);
    lemma_page_decompose(u);
    assert(0 <= pdi_of(u) < 1023);
    assert(0 <= pti_of(u) < 1024) by {
        vstd::arithmetic::div_mod::lemma_mod_bound(u / 0x1000, 0x400);
    }
    assert(pdi_of(u) != pdi_of(v) || pti_of(u) != pti_of(v));
    if pdi_of(u) != pdi_of(v) {
        assert(m1.tables@[pdi_of(u)] == m0.tables@[pdi_of(u)]);
        assert(m1.page_directory@[pdi_of(u)] == m0.page_directory@[pdi_of(u)]);
    } else {
        if m0.dir_present(pdi_of(v)) {
            assert(m1.tables@[pdi_of(v)]@[pti_of(u)] == m0.tables@[pdi_of(v)]@[pti_of(u)]);
        } else {
            assert(!m0.mapping_present(u));
            assert(m1.tables@[pdi_of(v)]@[pti_of(u)].value == 0);
            assert(!nth_bit32(0u32, 0)) by (bit_vector);
        }
    }
}

/// Number of present directory slots among the first `k`.
pub open spec fn count_present_upto(s: Seq<DirectoryEntry>, k: int) -> int
    decreases k,
{
    if k <= 0 {
        0
    } else {
        count_present_upto(s, k - 1) + if nth_bit32(s[k - 1].value, 0) {
            1int
        } else {
            0int
        }
    }
}

pub proof fn lemma_count_present_bounds(s: Seq<DirectoryEntry>, k: int)
    ensures
        0 <= count_present_upto(s, k) <= (if k >= 0 {
            k
        } else {
            0
        }),
    decreases k,
{
    if k > 0 {
        lemma_count_present_bounds(s, k - 1);
    }
}

/// A directory with no present slot below `k` counts zero.
pub proof fn lemma_count_present_none(s: Seq<DirectoryEntry>, k: int)
    requires
        forall|d: int| 0 <= d < k ==> !nth_bit32(#[trigger] s[d].value, 0),
    ensures
        count_present_upto(s, k) == 0,
    decreases k,
{
    if k > 0 {
        lemma_count_present_none(s, k - 1);
    }
}

/// Directory views with the same present bits below `k` count alike.
pub proof fn lemma_count_present_agree(s: Seq<DirectoryEntry>, t: Seq<DirectoryEntry>, k: int)
    requires
        forall|d: int| 0 <= d < k ==> nth_bit32(#[trigger] s[d].value, 0) == nth_bit32(t[d].value, 0),
    ensures
        count_present_upto(s, k) == count_present_upto(t, k),
    decreases k,
{
    if k > 0 {
        lemma_count_present_agree(s, t, k - 1);
        assert(nth_bit32(s[k - 1].value, 0) == nth_bit32(t[k - 1].value, 0));
    }
}

/// Turning exactly one absent slot below `k` present raises the count
/// by one.
pub proof fn lemma_count_present_flip(s: Seq<DirectoryEntry>, t: Seq<DirectoryEntry>, k: int, p: int)
    requires
        0 <= p < k,
        !nth_bit32(s[p].value, 0),
        nth_bit32(t[p].value, 0),
        forall|d: int| 0 <= d < k && d != p ==> (#[trigger] t[d]) == s[d],
    ensures
        count_present_upto(t, k) == count_present_upto(s, k) + 1,
    decreases k,
{
    if k - 1 == p {
        lemma_count_present_agree(s, t, k - 1);
    } else {
        lemma_count_present_flip(s, t, k - 1, p);
        assert(t[k - 1] == s[k - 1]);
    }
}

/// Mapping a virtual address that is already mapped — even towards a
/// different physical target — is a silent no-op that leaves the
/// original translation in place. Its inputs are what `memory_map`
/// ensures of a call made in a state where the leaf for `v` is
/// already present.
pub proof fn lemma_remap_keeps_translation(m1: Manager, m2: Manager, v: int, r2: MapResult)
    requires
        m1.mapping_present(v),
        r2 == MapResult::Mapped ==> !m1.mapping_present(v),
        r2 == MapResult::OutOfFrames ==> !m1.dir_present(pdi_of(v)),
        r2 == MapResult::AlreadyMapped ==> m2.tables@ == m1.tables@ && m2.page_directory@
            == m1.page_directory@,
    ensures
        r2 == MapResult::AlreadyMapped,
        m2.mapping_present(v),
        m2.translation(v) == m1.translation(v),
{
    if r2 == MapResult::OutOfFrames {
        assert(m1.dir_present(pdi_of(v)));
    }
}

} // verus!
