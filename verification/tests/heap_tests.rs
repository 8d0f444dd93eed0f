use elsos::malloc::{FreeStatus, MemoryManager, HEADER_SIZE};
use elsos::memory::init;
use elsos::multiboot::MultibootMmapEntry;

fn mmap_entry(addr: u32, len: u32, tag_type: u32) -> MultibootMmapEntry {
    MultibootMmapEntry { addr, addr_upper: 0, len, len_upper: 0, tag_type, zero: 0 }
}

fn manager() -> MemoryManager {
    let mmap = vec![mmap_entry(0, 0x10_0000, 1), mmap_entry(0x10_0000, 0x3f0_0000, 1)];
    init(&mmap, 0x10_0000, 0x18_0000).unwrap()
}

#[test]
fn zero_size_allocation_is_rejected() {
    let mut m = manager();
    assert_eq!(m.kmalloc(0), 0);
    assert_eq!(m.vmalloc(0), 0);
    assert_eq!(m.kzalloc(0), 0);
    assert_eq!(m.vzalloc(0), 0);
}

#[test]
fn roundtrip_size_then_free_reports_zero() {
    let mut m = manager();
    let r = m.kmalloc(100);
    assert_ne!(r, 0);
    // The recorded size is the request aligned up to 16 bytes.
    assert_eq!(m.ksize(r), 112);
    assert!(m.ksize(r) >= 100);
    assert_eq!(m.kfree(r), FreeStatus::Freed);
    assert_eq!(m.ksize(r), 0);
}

#[test]
fn roundtrip_user_arena() {
    let mut m = manager();
    let r = m.vmalloc(33);
    assert_ne!(r, 0);
    assert_eq!(m.vsize(r), 48);
    assert_eq!(m.vfree(r), FreeStatus::Freed);
    assert_eq!(m.vsize(r), 0);
}

#[test]
fn double_free_is_rejected_and_corrupts_nothing() {
    let mut m = manager();
    let a = m.kmalloc(32);
    let b = m.kmalloc(48);
    let c = m.kmalloc(64);
    assert_ne!(a, 0);
    assert_ne!(b, 0);
    assert_ne!(c, 0);
    assert_eq!(m.kfree(b), FreeStatus::Freed);
    // The second free of the same pointer is rejected...
    assert_eq!(m.kfree(b), FreeStatus::DoubleFree);
    // ...and the neighboring live blocks are untouched.
    assert_eq!(m.ksize(a), 32);
    assert_eq!(m.ksize(c), 64);
}

#[test]
fn invalid_pointers_are_reported_not_fatal() {
    let mut m = manager();
    let a = m.kmalloc(32);
    assert_ne!(a, 0);
    assert_eq!(m.kfree(0), FreeStatus::NullPointer);
    assert_eq!(m.kfree(16), FreeStatus::BelowBounds);
    assert_eq!(m.kfree(0x7000_0000), FreeStatus::AboveBounds);
    // In bounds, but no allocation header in front of it.
    assert_eq!(m.kfree(a + 4096), FreeStatus::BadMagic);
    assert_eq!(m.ksize(a + 4096), 0);
    assert_eq!(m.ksize(0), 0);
    // The probe calls left the live block alone.
    assert_eq!(m.ksize(a), 32);
}

#[test]
fn coalescing_reuses_the_merged_span_without_new_frames() {
    let mut m = manager();
    let guard_low = m.vmalloc(64);
    let a = m.vmalloc(64);
    let b = m.vmalloc(64);
    let c = m.vmalloc(64);
    let guard_high = m.vmalloc(64);
    assert_ne!(guard_low, 0);
    assert_ne!(a, 0);
    assert_ne!(b, 0);
    assert_ne!(c, 0);
    assert_ne!(guard_high, 0);
    // Blocks are carved adjacently.
    assert_eq!(b, a + 64 + HEADER_SIZE);
    assert_eq!(c, b + 64 + HEADER_SIZE);
    assert_eq!(m.vfree(b), FreeStatus::Freed);
    assert_eq!(m.vfree(c), FreeStatus::Freed);
    let free_frames_before = m.frames.free_mem;
    // A request for size(b) + size(c) + one header must fit the merged
    // span, starting at b, without touching the frame allocator.
    let merged = m.vmalloc(64 + 64 + HEADER_SIZE);
    assert_eq!(merged, b);
    assert_eq!(m.frames.free_mem, free_frames_before);
    assert_eq!(m.vsize(merged), 64 + 64 + HEADER_SIZE);
    assert_eq!(m.vsize(guard_low), 64);
    assert_eq!(m.vsize(guard_high), 64);
}

#[test]
fn splitting_reuses_the_start_and_leaves_a_free_remainder() {
    let mut m = manager();
    let big = m.kmalloc(1024);
    let guard = m.kmalloc(64);
    assert_ne!(big, 0);
    assert_ne!(guard, 0);
    assert_eq!(m.kfree(big), FreeStatus::Freed);
    let small = m.kmalloc(64);
    // The new allocation reuses the freed block's start address...
    assert_eq!(small, big);
    assert_eq!(m.ksize(small), 64);
    // ...and the remainder right behind it is a valid free block: the
    // next allocation of exactly its size lands there.
    let rest = m.kmalloc(1024 - 64 - HEADER_SIZE);
    assert_eq!(rest, small + 64 + HEADER_SIZE);
    assert_eq!(m.ksize(rest), 1024 - 64 - HEADER_SIZE);
    assert_eq!(m.ksize(guard), 64);
}

#[test]
fn backward_merge_happens_on_the_next_scan() {
    let mut m = manager();
    let a = m.kmalloc(64);
    let b = m.kmalloc(64);
    let guard = m.kmalloc(64);
    assert_ne!(guard, 0);
    // Freeing in address order leaves a and b as separate freed blocks
    // (the forward merge at a ran before b was freed); the next
    // allocating scan coalesces them.
    assert_eq!(m.kfree(a), FreeStatus::Freed);
    assert_eq!(m.kfree(b), FreeStatus::Freed);
    let merged = m.kmalloc(64 + 64 + HEADER_SIZE);
    assert_eq!(merged, a);
}

#[test]
fn kernel_arena_is_bounded() {
    let mut m = manager();
    // The whole kernel window is 32 MiB; one absurd request fails and
    // a later ordinary one still succeeds.
    assert_eq!(m.kmalloc(0x0200_0000), 0);
    let a = m.kmalloc(128);
    assert_ne!(a, 0);
    assert_eq!(m.ksize(a), 128);
}

#[test]
fn user_arena_grows_by_mapping_new_frames() {
    let mut m = manager();
    let backing_before = m.user_heap.backing;
    let free_before = m.frames.free_mem;
    // Far more than the single initially-backed page.
    let big = m.vmalloc(5 * 4096);
    assert_ne!(big, 0);
    assert_eq!(m.vsize(big), 5 * 4096);
    assert!(m.user_heap.backing > backing_before);
    assert!(m.frames.free_mem < free_before);
    assert_eq!(m.pt.last_mapped + 4096 - m.pt.heap_start, m.user_heap.backing);
    // Every newly backed page is translated, to consecutive frames of
    // the contiguous run the growth fetched.
    let first = m.pt.translation_of(0x0200_1000);
    assert_ne!(first, 0);
    for k in 0..5 {
        assert_eq!(m.pt.translation_of(0x0200_1000 + k * 4096), first + k * 4096);
    }
}

#[test]
fn live_bytes_stay_within_the_mapped_backing() {
    let mut m = manager();
    let mut live: usize = 0;
    let mut count: usize = 0;
    loop {
        let r = m.kmalloc(4096);
        if r == 0 {
            break;
        }
        live += m.ksize(r);
        count += 1;
    }
    assert!(count > 0);
    assert!(live <= m.kernel_heap.backing);
    // Every block also paid for its header inside the same backing.
    assert!(live + count * HEADER_SIZE <= m.kernel_heap.backing);
}

#[test]
fn zalloc_behaves_like_malloc_for_placement() {
    let mut m = manager();
    let a = m.kzalloc(40);
    assert_ne!(a, 0);
    assert_eq!(m.ksize(a), 48);
    let b = m.vzalloc(24);
    assert_ne!(b, 0);
    assert_eq!(m.vsize(b), 32);
}
