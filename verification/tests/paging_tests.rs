use elsos::memory::{get_mem_size, init, page_map_indexer, MemorySpace, PAGE_SIZE};
use elsos::multiboot::{check_magic, MultibootMmapEntry, BOOTLOADER_MAGIC};
use elsos::page::{DirectoryEntry, TableEntry};
use elsos::pagedirectory::PageDirectoryEntry;
use elsos::pagetable::MapResult;

fn mmap_entry(addr: u32, len: u32, tag_type: u32) -> MultibootMmapEntry {
    MultibootMmapEntry { addr, addr_upper: 0, len, len_upper: 0, tag_type, zero: 0 }
}

/// 64 MiB of physical memory: a low region the kernel never claims and
/// one large available region.
fn boot_mmap() -> Vec<MultibootMmapEntry> {
    vec![mmap_entry(0, 0x10_0000, 1), mmap_entry(0x10_0000, 0x3f0_0000, 1)]
}

const KERNEL_START: usize = 0x10_0000;
const KERNEL_END: usize = 0x18_0000;

#[test]
fn check_magic_accepts_only_the_bootloader_value() {
    assert!(check_magic(BOOTLOADER_MAGIC));
    assert!(check_magic(0x36d76289));
    assert!(!check_magic(0));
    assert!(!check_magic(0x36d76288));
}

#[test]
fn get_mem_size_sums_the_map() {
    let mmap = boot_mmap();
    assert_eq!(get_mem_size(&mmap), 0x400_0000);
}

#[test]
fn page_map_indexer_splits_ten_ten_twelve() {
    assert_eq!(page_map_indexer(0), (0, 0));
    assert_eq!(page_map_indexer(0x1000), (0, 1));
    assert_eq!(page_map_indexer(0x0040_0000), (1, 0));
    assert_eq!(page_map_indexer(0x0200_0000), (8, 0));
    assert_eq!(page_map_indexer(0x0200_5000), (8, 5));
    assert_eq!(page_map_indexer(0xffbf_f000), (1022, 1023));
}

#[test]
fn directory_entry_bit_layout() {
    let mut e = DirectoryEntry { value: 0 };
    e.set_addr(0xdead_b000);
    assert_eq!(e.get_addr(), 0xdead_b000);
    assert!(!e.get_present());
    e.set_present(true);
    assert!(e.get_present());
    assert_eq!(e.value & 1, 1);
    e.set_rw(true);
    assert_eq!(e.value & 2, 2);
    e.set_us(true);
    assert_eq!(e.value & 4, 4);
    e.set_pwt(true);
    assert_eq!(e.value & 8, 8);
    e.set_pcd(true);
    assert_eq!(e.value & 16, 16);
    e.set_accessed(true);
    assert_eq!(e.value & 32, 32);
    e.set_flag2(true);
    assert_eq!(e.value & 64, 64);
    e.set_ps(true);
    assert_eq!(e.value & 128, 128);
    e.set_flags(0xf);
    assert_eq!(e.get_flags(), 0xf);
    // The address field survives all the flag writes.
    assert_eq!(e.get_addr(), 0xdead_b000);
    e.set_present(false);
    assert!(!e.get_present());
    assert!(e.get_rw());
    e.reset();
    assert_eq!(e.value, 0);
}

#[test]
fn table_entry_bit_layout() {
    let mut e = TableEntry { value: 0 };
    e.set_addr(0x0040_0000);
    assert_eq!(e.get_addr(), 0x0040_0000);
    e.set_present(true);
    assert!(e.get_present());
    e.set_rw(true);
    assert!(e.get_rw());
    e.set_us(true);
    assert!(e.get_us());
    e.set_pwt(true);
    assert!(e.get_pwt());
    e.set_pcd(true);
    assert!(e.get_pcd());
    e.set_accessed(true);
    assert!(e.get_accessed());
    e.set_dirty(true);
    assert!(e.get_dirty());
    assert_eq!(e.value & 64, 64);
    e.set_pat(true);
    assert_eq!(e.value & 128, 128);
    e.set_global(true);
    assert_eq!(e.value & 256, 256);
    assert_eq!(e.get_addr(), 0x0040_0000);
}

#[test]
fn page_directory_entry_returns_frame_number() {
    let mut e = PageDirectoryEntry { value: 0 };
    e.set_addr(0x0012_3000);
    // This older record reads the field shifted down to a frame number.
    assert_eq!(e.get_addr(), 0x123);
    e.set_present(true);
    assert!(e.get_present());
}

#[test]
fn init_builds_a_working_manager() {
    let m = init(&boot_mmap(), KERNEL_START, KERNEL_END).unwrap();
    assert_eq!(m.pt.heap_start, 0x0200_0000);
    assert_eq!(m.pt.last_mapped, 0x0200_0000);
    assert_eq!(m.pt.page_count, 0x4000);
    assert!(m.pt.paging_enabled);
    assert_eq!(m.user_heap.base, 0x0200_0000);
    assert_eq!(m.user_heap.backing, PAGE_SIZE);
}

#[test]
fn request_never_returns_kernel_image_or_bitmap_frames() {
    let mut m = init(&boot_mmap(), KERNEL_START, KERNEL_END).unwrap();
    // The kernel image occupies frames 0x100..0x180 and the bitmap
    // frame 0x180; a kernel-space request must avoid them all.
    let r = m.frames.request_free_pages(4, MemorySpace::Kernel);
    assert_ne!(r, 0);
    let first = r / PAGE_SIZE;
    for j in first..first + 4 {
        assert!(!(0x100 <= j && j < 0x181));
    }
}

#[test]
fn exhausted_request_returns_zero_and_changes_nothing() {
    let mut m = init(&boot_mmap(), KERNEL_START, KERNEL_END).unwrap();
    let free_before = m.frames.free_mem;
    let locked_before = m.frames.locked_mem;
    let probe: Vec<bool> = (0..0x4000).map(|i| m.frames.bitmap.get(i)).collect();
    // No run of 0x2000 contiguous free frames fits the kernel window.
    let r = m.frames.request_free_pages(0x2000, MemorySpace::Kernel);
    assert_eq!(r, 0);
    assert_eq!(m.frames.free_mem, free_before);
    assert_eq!(m.frames.locked_mem, locked_before);
    for i in 0..0x4000 {
        assert_eq!(m.frames.bitmap.get(i), probe[i]);
    }
}

#[test]
fn free_page_is_idempotent_bookkeeping() {
    let mut m = init(&boot_mmap(), KERNEL_START, KERNEL_END).unwrap();
    let r = m.frames.request_free_pages(1, MemorySpace::User);
    assert_ne!(r, 0);
    let locked = m.frames.locked_mem;
    m.frames.free_page(r);
    assert_eq!(m.frames.locked_mem, locked - PAGE_SIZE);
    // Freeing the same frame again is reported, never fatal, and
    // changes no counter.
    m.frames.free_page(r);
    assert_eq!(m.frames.locked_mem, locked - PAGE_SIZE);
}

#[test]
fn remap_keeps_the_original_translation() {
    let mut m = init(&boot_mmap(), KERNEL_START, KERNEL_END).unwrap();
    let v = 0x0240_0000;
    let r1 = m.pt.memory_map(v, 0x0300_0000, &mut m.frames);
    assert_eq!(r1, MapResult::Mapped);
    assert_eq!(m.pt.translation_of(v), 0x0300_0000);
    // Mapping the same virtual page towards a different physical
    // target is a silent no-op: the first translation stays in place.
    let r2 = m.pt.memory_map(v, 0x0380_0000, &mut m.frames);
    assert_eq!(r2, MapResult::AlreadyMapped);
    assert_eq!(m.pt.translation_of(v), 0x0300_0000);
}

#[test]
fn identity_remap_tracks_no_heap() {
    let mut m = init(&boot_mmap(), KERNEL_START, KERNEL_END).unwrap();
    let heap_start = m.pt.heap_start;
    let last_mapped = m.pt.last_mapped;
    // An identity mapping never moves the heap bookkeeping.
    let _ = m.pt.memory_map(0x0300_0000, 0x0300_0000, &mut m.frames);
    assert_eq!(m.pt.heap_start, heap_start);
    assert_eq!(m.pt.last_mapped, last_mapped);
}

#[test]
fn heap_size_reports_backed_bytes() {
    let m = init(&boot_mmap(), KERNEL_START, KERNEL_END).unwrap();
    assert_eq!(m.pt.heap_size(), 0xfff);
    assert!(m.pt.is_range_mapped(0x0200_0000, 0x1000));
    assert!(!m.pt.is_range_mapped(0x0200_0000, 0x2000));
    assert!(!m.pt.is_range_mapped(0x0201_0000, 16));
}

#[test]
fn mapping_without_free_kernel_frames_is_out_of_frames() {
    let mut m = init(&boot_mmap(), KERNEL_START, KERNEL_END).unwrap();
    // Drain every free frame of the kernel window, so no page table
    // can be allocated any more.
    loop {
        if m.frames.request_free_pages(1, MemorySpace::Kernel) == 0 {
            break;
        }
    }
    // A fresh directory slot now has no frame for its page table; the
    // call reports exhaustion and changes nothing.
    let before = m.pt.translation_of(0x0280_0000);
    let r = m.pt.memory_map(0x0280_0000, 0x0300_0000, &mut m.frames);
    assert_eq!(r, MapResult::OutOfFrames);
    assert_eq!(m.pt.translation_of(0x0280_0000), before);
}

#[test]
fn request_reaches_the_kernel_windows_last_frame() {
    let mut m = init(&boot_mmap(), KERNEL_START, KERNEL_END).unwrap();
    // Occupy every free kernel frame, then release only the window's
    // very last one: first fit must find and return it.
    loop {
        if m.frames.request_free_pages(1, MemorySpace::Kernel) == 0 {
            break;
        }
    }
    m.frames.free_page(0x1fff * PAGE_SIZE);
    let r = m.frames.request_free_pages(1, MemorySpace::Kernel);
    assert_eq!(r, 0x1fff * PAGE_SIZE);
}
