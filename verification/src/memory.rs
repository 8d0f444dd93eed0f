//! Shared layout constants of the memory subsystem, the memory-space
//! selector, the 10/10/12 virtual-address split, and the total-memory
//! computation over the boot memory map.

use vstd::prelude::*;

verus! {

use crate::ferramenta;
use crate::ferramenta::nth_bit32;
use crate::malloc::{Arena, MemoryManager};
use crate::page::DirectoryEntry;
use crate::multiboot::MultibootMmapEntry;
use crate::pageframe;
use crate::pageframe::page_index_of;
use crate::pagetable;
use crate::pagetable::{MapResult, PDE_RW};

/// Size of one physical frame and of one mapped page, in bytes.
pub const PAGE_SIZE: usize = 4096;

/// First frame of the kernel virtual window.
pub const KERNEL_SPACE_START: usize = 0x0000_0000;

/// Number of frames in the kernel virtual window; everything above it
/// belongs to the growable user arena.
pub const KERNEL_SPACE_RANGE: usize = 0x0000_2000;

/// Below this many bytes of physical memory the kernel cannot even map
/// its own window and must halt at boot.
pub const MIN_TOTAL_MEMORY: usize = 0x0210_0000;

/// Selects which virtual window and arena an allocation or frame
/// request targets.
#[derive(Debug, Clone, Copy, PartialEq, Eq, Structural)]
pub enum MemorySpace {
    Kernel,
    User,
}

/// Sum of the region lengths the boot memory map reports.
pub open spec fn total_mem(entries: Seq<MultibootMmapEntry>) -> int
    decreases entries.len(),
{
    if entries.len() == 0 {
        0
    } else {
        total_mem(entries.drop_last()) + entries.last().len
    }
}

/// Total physical memory, from the boot memory map. The kernel halts
/// when the total is below the minimum viable size or does not fit the
/// 32-bit address width, so those inputs are excluded here and the
/// caller must check them first.
pub fn get_mem_size(mmap: &Vec<MultibootMmapEntry>) -> (r: usize)
    requires
        MIN_TOTAL_MEMORY <= total_mem(mmap@) <= 0xffff_ffff,
    ensures
        r == total_mem(mmap@),
{
    let mut total: u64 = 0;
    let mut i: usize = 0;
    proof {
        lemma_total_mem_bounds(mmap@, mmap@.len() as int);
        assert(mmap@.take(0) =~= Seq::<MultibootMmapEntry>::empty());
    }
    while i < mmap.len()
        invariant
            i <= mmap@.len(),
            total == total_mem(mmap@.take(i as int)),
            total_mem(mmap@) <= 0xffff_ffff,
            forall|k: int| 0 <= k <= mmap@.len() ==> total_mem(#[trigger] mmap@.take(k)) <= total_mem(mmap@),
        decreases mmap@.len() - i,
    {
        proof {
            assert(mmap@.take(i + 1).drop_last() =~= mmap@.take(i as int));
            assert(mmap@.take(i + 1).last() == mmap@[i as int]);
            lemma_total_mem_nonneg(mmap@.take(i + 1));
        }
        total = total + (mmap[i].len as u64);
        i = i + 1;
    }
    proof {
        assert(mmap@.take(mmap@.len() as int) =~= mmap@);
    }
    total as usize
}

proof fn lemma_total_mem_nonneg(entries: Seq<MultibootMmapEntry>)
    ensures
        total_mem(entries) >= 0,
    decreases entries.len(),
{
    if entries.len() > 0 {
        lemma_total_mem_nonneg(entries.drop_last());
    }
}

/// Every prefix sums to at most the whole map's total.
proof fn lemma_total_mem_bounds(entries: Seq<MultibootMmapEntry>, upto: int)
    requires
        0 <= upto <= entries.len(),
    ensures
        forall|k: int| 0 <= k <= upto ==> total_mem(#[trigger] entries.take(k)) <= total_mem(
            entries,
        ),
    decreases entries.len(),
{
    assert forall|k: int| 0 <= k <= upto implies total_mem(#[trigger] entries.take(k))
        <= total_mem(entries) by {
        lemma_total_mem_prefix(entries, k);
    }
}

proof fn lemma_total_mem_prefix(entries: Seq<MultibootMmapEntry>, k: int)
    requires
        0 <= k <= entries.len(),
    ensures
        total_mem(entries.take(k)) <= total_mem(entries),
    decreases entries.len() - k,
{
    if k == entries.len() {
        assert(entries.take(k) =~= entries);
    } else {
        lemma_total_mem_prefix(entries, k + 1);
        assert(entries.take(k + 1).drop_last() =~= entries.take(k));
        assert(entries.take(k + 1).last() == entries[k]);
    }
}

/// Marked frames only ever gain marks across an operation.
pub open spec fn marks_kept(before: Seq<bool>, after: Seq<bool>) -> bool {
    &&& after.len() == before.len()
    &&& forall|j: int| 0 <= j < before.len() && before[j] ==> #[trigger] after[j]
}

/// First frame above the kernel image and the bitmap's own storage:
/// where identity mapping ends and the page-table reserve begins.
pub open spec fn memory_start_frame(kernel_end: int, bits: int) -> int {
    ferramenta::align_up(ferramenta::align_up(kernel_end, 4096) + bits / 8 + 8, 4096) / 4096
}

/// A boot layout on which memory initialization is owed to succeed:
/// the kernel image ends inside the kernel window; the page-table
/// reserve above the bitmap fits below the window's top; the reserve's
/// frames are free once the memory map has been applied; and at least
/// one user frame is free to back the heap's first page.
pub open spec fn init_viable(
    entries: Seq<MultibootMmapEntry>,
    kernel_start: int,
    kernel_end: int,
) -> bool {
    let bits = total_mem(entries) / PAGE_SIZE as int;
    let ms = memory_start_frame(kernel_end, bits);
    let g = pageframe::grub_view(entries, kernel_start, kernel_end);
    &&& page_index_of(kernel_end) <= KERNEL_SPACE_START + KERNEL_SPACE_RANGE
    &&& ms + bits / 1024 + 2 <= KERNEL_SPACE_START + KERNEL_SPACE_RANGE
    &&& forall|j: int| ms <= j < ms + bits / 1024 + 2 ==> !(#[trigger] g[j])
    &&& exists|j: int|
        KERNEL_SPACE_START + KERNEL_SPACE_RANGE + 1 <= j && j + 1 <= bits && !(#[trigger] g[j])
}

/// Under a viable layout's running bookkeeping, the next unconsumed
/// frame of the page-table reserve is a free kernel candidate: at most
/// eight page tables have been carved from a reserve at least ten
/// frames wide.
proof fn lemma_reserve_free_candidate(
    a: pageframe::Allocator,
    dir: Seq<DirectoryEntry>,
    msf: int,
    reserve_top: int,
    bits: int,
)
    requires
        forall|j: int|
            msf + 1 + pagetable::count_present_upto(dir, 9) <= j < reserve_top ==> !(
            #[trigger] a.bitmap@[j]),
        !nth_bit32(dir[8].value, 0),
        1 <= msf,
        reserve_top == msf + bits / 1024 + 2,
        0x2100 <= bits,
        reserve_top <= KERNEL_SPACE_START + KERNEL_SPACE_RANGE,
    ensures
        ({
            let lo = msf + 1 + pagetable::count_present_upto(dir, 9);
            &&& a.candidate(MemorySpace::Kernel, 1, lo)
            &&& !a.bitmap@[lo]
            &&& lo < reserve_top
        }),
{
    vstd::arithmetic::div_mod::lemma_div_is_ordered(0x2100, bits, 1024);
    assert(msf + 10 <= reserve_top);
    pagetable::lemma_count_present_bounds(dir, 8);
    assert(pagetable::count_present_upto(dir, 9) == pagetable::count_present_upto(dir, 8));
}

/// One identity-mapping step of boot initialization keeps the reserve
/// bookkeeping: a fresh page table consumes exactly the lowest free
/// kernel frame and raises the present count by one; any other outcome
/// leaves frames and present bits alone. The user window is never
/// touched.
#[verifier::rlimit(100)]
#[verifier::spinoff_prover]
proof fn lemma_map_step(
    a0: pageframe::Allocator,
    d0: Seq<DirectoryEntry>,
    a1: pageframe::Allocator,
    d1: Seq<DirectoryEntry>,
    fresh: bool,
    pdi: int,
    msf: int,
    reserve_top: int,
    bits: int,
    g: Seq<bool>,
)
    requires
        forall|j: int|
            msf + 1 + pagetable::count_present_upto(d0, 9) <= j < reserve_top ==> !(
            #[trigger] a0.bitmap@[j]),
        forall|j: int|
            KERNEL_SPACE_START + KERNEL_SPACE_RANGE <= j < bits ==> (#[trigger] a0.bitmap@[j])
                == g[j],
        !nth_bit32(d0[8].value, 0),
        0 <= pdi <= 7,
        1 <= msf,
        reserve_top == msf + bits / 1024 + 2,
        0x2100 <= bits,
        reserve_top <= KERNEL_SPACE_START + KERNEL_SPACE_RANGE,
        a0.bitmap@.len() == bits,
        a1.bitmap@.len() == bits,
        fresh ==> !nth_bit32(d0[pdi].value, 0),
        fresh ==> nth_bit32(d1[pdi].value, 0),
        fresh ==> forall|d: int| 0 <= d < 1024 && d != pdi ==> (#[trigger] d1[d]) == d0[d],
        d0.len() == 1024,
        d1.len() == 1024,
        fresh ==> exists|f: int|
            {
                &&& a0.candidate(MemorySpace::Kernel, 1, f)
                &&& !a0.bitmap@[f]
                &&& forall|q: int|
                    a0.candidate(MemorySpace::Kernel, 1, q) && q < f ==> a0.bitmap@[q]
                &&& a1.bitmap@ == a0.bitmap@.update(f, true)
            },
        !fresh ==> a1.bitmap@ == a0.bitmap@,
        !fresh ==> forall|d: int|
            0 <= d < 9 ==> nth_bit32(#[trigger] d1[d].value, 0) == nth_bit32(d0[d].value, 0),
    ensures
        forall|j: int|
            msf + 1 + pagetable::count_present_upto(d1, 9) <= j < reserve_top ==> !(
            #[trigger] a1.bitmap@[j]),
        forall|j: int|
            KERNEL_SPACE_START + KERNEL_SPACE_RANGE <= j < bits ==> (#[trigger] a1.bitmap@[j])
                == g[j],
        !nth_bit32(d1[8].value, 0),
{
    let lo0 = msf + 1 + pagetable::count_present_upto(d0, 9);
    lemma_reserve_free_candidate(a0, d0, msf, reserve_top, bits);
    if fresh {
        assert(d1[8] == d0[8]);
        let f = choose|f: int|
            {
                &&& a0.candidate(MemorySpace::Kernel, 1, f)
                &&& !a0.bitmap@[f]
                &&& forall|q: int|
                    a0.candidate(MemorySpace::Kernel, 1, q) && q < f ==> a0.bitmap@[q]
                &&& a1.bitmap@ == a0.bitmap@.update(f, true)
            };
        if f > lo0 {
            assert(a0.bitmap@[lo0]);
            assert(false);
        }
        pagetable::lemma_count_present_flip(d0, d1, 9, pdi);
        assert(a1.bitmap@ == a0.bitmap@.update(f, true));
        assert forall|j: int|
            msf + 1 + pagetable::count_present_upto(d1, 9) <= j < reserve_top implies !(
        #[trigger] a1.bitmap@[j]) by {
            assert(j >= lo0 + 1);
            assert(!a0.bitmap@[j]);
            assert(j != f);
            assert(0 <= j < a0.bitmap@.len());
            assert(0 <= f < a0.bitmap@.len());
            assert(a0.bitmap@.update(f, true)[j] == a0.bitmap@[j]);
        }
        assert forall|j: int|
            KERNEL_SPACE_START + KERNEL_SPACE_RANGE <= j < bits implies (
        #[trigger] a1.bitmap@[j]) == g[j] by {
            assert(f + 1 <= KERNEL_SPACE_START + KERNEL_SPACE_RANGE);
            assert(j != f);
            assert(0 <= j < a0.bitmap@.len());
            assert(0 <= f < a0.bitmap@.len());
            assert(a0.bitmap@.update(f, true)[j] == a0.bitmap@[j]);
            assert(a0.bitmap@[j] == g[j]);
        }
    } else {
        pagetable::lemma_count_present_agree(d0, d1, 9);
    }
}

/// Boot-time memory initialization: consumes the boot memory map once,
/// builds the page-table manager, identity-maps the already-used
/// physical memory, switches to recursive addressing, backs the first
/// user page, and hands back the one memory-manager value that owns
/// all further allocation. `None` is the unrecoverable-bootstrap
/// channel: no free frame for a page table or directory, or a kernel
/// image and bitmap too large for the kernel window.
#[verifier::rlimit(100)]
#[verifier::spinoff_prover]
pub fn init(mmap: &Vec<MultibootMmapEntry>, kernel_start: usize, kernel_end: usize) -> (r: Option<
    MemoryManager,
>)
    requires
        MIN_TOTAL_MEMORY <= total_mem(mmap@) <= 0xffff_ffff,
        kernel_start <= kernel_end,
        kernel_end + 2 * PAGE_SIZE <= 0xffff_ffff,
        page_index_of(kernel_start as int) + page_index_of(kernel_end - kernel_start) <= total_mem(
            mmap@,
        ) / PAGE_SIZE as int,
        page_index_of(kernel_end as int) + page_index_of(total_mem(mmap@) / PAGE_SIZE as int / 8)
            <= total_mem(mmap@) / PAGE_SIZE as int,
    ensures
        r matches Some(m) ==> {
            &&& m.wf()
            &&& m.frames.is_initialized()
            &&& m.pt.paging_enabled
            &&& m.pt.page_count == total_mem(mmap@) / PAGE_SIZE as int
            &&& m.pt.heap_start == PAGE_SIZE * (KERNEL_SPACE_START + KERNEL_SPACE_RANGE)
            &&& forall|j: int|
                page_index_of(kernel_start as int) <= j < page_index_of(kernel_start as int)
                    + page_index_of(kernel_end - kernel_start) ==> #[trigger] m.frames.bitmap@[j]
            &&& forall|j: int|
                page_index_of(kernel_end as int) <= j < page_index_of(kernel_end as int)
                    + page_index_of(total_mem(mmap@) / PAGE_SIZE as int / 8)
                    ==> #[trigger] m.frames.bitmap@[j]
        },
        init_viable(mmap@, kernel_start as int, kernel_end as int) ==> r is Some,
{
    let total = get_mem_size(mmap);
    let bits: usize = total / PAGE_SIZE;
    let mut frames = pageframe::Allocator::new();
    frames.read_grub_mmap(mmap, kernel_start, kernel_end);
    let ghost marked = frames.bitmap@;
    let ghost viable = init_viable(mmap@, kernel_start as int, kernel_end as int);
    let ghost msf = memory_start_frame(kernel_end as int, bits as int);
    proof {
        assert(bits >= (MIN_TOTAL_MEMORY as int) / (PAGE_SIZE as int));
        assert(KERNEL_SPACE_START + KERNEL_SPACE_RANGE <= bits);
        assert(marked == pageframe::grub_view(mmap@, kernel_start as int, kernel_end as int));
        // The page-table reserve starts at frame one or above.
        ferramenta::lemma_align_up_bounds(kernel_end as int, 4096);
        let b0 = ferramenta::align_up(kernel_end as int, 4096);
        ferramenta::lemma_align_up_bounds(b0 + bits as int / 8 + 8, 4096);
        let au = ferramenta::align_up(b0 + bits as int / 8 + 8, 4096);
        assert(au >= 4096) by {
            if au < 4096 {
                vstd::arithmetic::div_mod::lemma_small_mod(au as nat, 4096nat);
            }
        }
        vstd::arithmetic::div_mod::lemma_div_is_ordered(4096, au, 4096);
        assert(msf >= 1);
    }
    let page_directory_addr = frames.request_free_page(MemorySpace::Kernel);
    if page_directory_addr == 0 {
        proof {
            if viable {
                assert(!marked[msf]);
                assert(msf + 1 <= KERNEL_SPACE_START + KERNEL_SPACE_RANGE);
                assert(frames.candidate(MemorySpace::Kernel, 1, msf));
                assert(!pageframe::run_free(marked, msf, 1));
                assert(false);
            }
        }
        return None;
    }
    proof {
        assert(marks_kept(marked, frames.bitmap@));
        assert((page_directory_addr as int) / (PAGE_SIZE as int) < bits);
        vstd::arithmetic::div_mod::lemma_fundamental_div_mod(
            page_directory_addr as int,
            PAGE_SIZE as int,
        );
        assert(page_directory_addr <= 0xffff_f000) by (nonlinear_arith)
            requires
                page_directory_addr == (PAGE_SIZE as int) * ((page_directory_addr as int) / (
                PAGE_SIZE as int)) + 0,
                (page_directory_addr as int) / (PAGE_SIZE as int) < bits,
                bits <= 0xf_ffff,
                PAGE_SIZE == 4096,
        {
        }
    }
    let ghost after_dir = frames.bitmap@;
    let mut pt = pagetable::Manager::new(page_directory_addr, PDE_RW);
    proof {
        assert(!pt.dir_present(8));
        assert forall|d: int| 0 <= d < 9 implies !nth_bit32(
            #[trigger] pt.page_directory@[d].value,
            0,
        ) by {
            assert(!pt.dir_present(d));
        }
        pagetable::lemma_count_present_none(pt.page_directory@, 9);
    }
    pt.page_count = bits;
    proof {
        if viable {
            // The directory frame came from below the reserve, whose
            // other frames stay free.
            let f = (page_directory_addr as int) / (PAGE_SIZE as int);
            if f > msf {
                assert(frames.candidate(MemorySpace::Kernel, 1, msf));
                assert(!pageframe::run_free(marked, msf, 1) || marked[msf] || true);
                assert(marked[msf]);
                assert(false);
            }
            assert(after_dir == marked.update(f, true));
            assert forall|j: int| msf + 1 <= j < msf + bits as int / 1024 + 2 implies !(
            #[trigger] after_dir[j]) by {
                assert(!marked[j]);
            }
        }
    }

    // Identity-map everything the kernel already uses: the image, the
    // bitmap, and the rest of the kernel window; lock the frames that
    // the kernel image and bitmap occupy and the window above the
    // page-table reserve.
    proof {
        assert(0x1000usize == 1usize << 12usize) by (bit_vector);
    }
    let b = ferramenta::align(kernel_end, 0x1000);
    if b > 0x1000 * (KERNEL_SPACE_START + KERNEL_SPACE_RANGE) {
        // The kernel image ends past its own window; no layout fits.
        proof {
            if viable {
                assert(b == ferramenta::align_up(kernel_end as int, 4096));
                assert(page_index_of(kernel_end as int) > KERNEL_SPACE_START
                    + KERNEL_SPACE_RANGE);
                assert(false);
            }
        }
        return None;
    }
    let buffer_len: usize = bits / 8 + 8;
    assert(buffer_len <= 0x2_0007);
    let memory_start = ferramenta::align(b + buffer_len, 0x1000);
    let ghost reserve_top = msf + bits as int / 1024 + 2;
    proof {
        assert(b == ferramenta::align_up(kernel_end as int, 4096));
        assert(memory_start == ferramenta::align_up(
            ferramenta::align_up(kernel_end as int, 4096) + bits as int / 8 + 8,
            4096,
        ));
        assert(memory_start as int / PAGE_SIZE as int == msf);
    }
    pt.memory_start = memory_start;
    let ms_pages = memory_start / PAGE_SIZE;
    if ms_pages > KERNEL_SPACE_START + KERNEL_SPACE_RANGE {
        proof {
            if viable {
                assert(false);
            }
        }
        return None;
    }
    if bits / 1024 + 2 + ms_pages > KERNEL_SPACE_START + KERNEL_SPACE_RANGE {
        proof {
            if viable {
                assert(false);
            }
        }
        return None;
    }
    let mut i: usize = 0;
    while i < ms_pages
        invariant
            frames.wf(),
            pt.wf(),
            i <= ms_pages,
            ms_pages <= KERNEL_SPACE_START + KERNEL_SPACE_RANGE,
            KERNEL_SPACE_START + KERNEL_SPACE_RANGE <= frames.bitmap.size,
            frames.bitmap.size == bits,
            0x2100 <= bits <= 0xf_ffff,
            frames.is_initialized(),
            pt.heap_start == 0,
            pt.last_mapped == 0,
            pt.page_count == bits,
            pt.paging_enabled == false,
            pt.memory_start == memory_start,
            marks_kept(marked, frames.bitmap@),
            viable == init_viable(mmap@, kernel_start as int, kernel_end as int),
            marked == pageframe::grub_view(mmap@, kernel_start as int, kernel_end as int),
            bits == total_mem(mmap@) / PAGE_SIZE as int,
            ms_pages == msf,
            reserve_top == msf + bits as int / 1024 + 2,
            reserve_top <= KERNEL_SPACE_START + KERNEL_SPACE_RANGE,
            1 <= ms_pages,
            !pt.dir_present(8),
            viable ==> forall|j: int|
                ms_pages + 1 + pagetable::count_present_upto(pt.page_directory@, 9) <= j
                    < reserve_top ==> !(#[trigger] frames.bitmap@[j]),
            viable ==> forall|j: int|
                KERNEL_SPACE_START + KERNEL_SPACE_RANGE <= j < bits ==> (
                #[trigger] frames.bitmap@[j]) == marked[j],
        decreases ms_pages - i,
    {
        let ghost pre_alloc = frames;
        let ghost pre = frames.bitmap@;
        let ghost pre_dir = pt.page_directory@;
        proof {
            if viable {
                lemma_reserve_free_candidate(pre_alloc, pre_dir, msf, reserve_top, bits as int);
            }
        }
        let res = pt.memory_map(i * 0x1000, i * 0x1000, &mut frames);
        if res == MapResult::OutOfFrames {
            proof {
                if viable {
                    let lo = msf + 1 + pagetable::count_present_upto(pre_dir, 9);
                    assert(pre_alloc.candidate(MemorySpace::Kernel, 1, lo));
                    assert(pre[lo]);
                    assert(false);
                }
            }
            return None;
        }
        proof {
            if viable {
                let pdi = pagetable::pdi_of(i as int * 4096);
                assert(pdi <= 7) by {
                    vstd::arithmetic::div_mod::lemma_div_is_ordered(
                        i as int * 4096,
                        0x1fff000,
                        0x40_0000,
                    );
                }
                let fresh = res == MapResult::Mapped && !nth_bit32(pre_dir[pdi].value, 0);
                if !fresh {
                    if res == MapResult::Mapped {
                        assert(pt.page_directory@ == pre_dir);
                    }
                    assert(pt.page_directory@ == pre_dir);
                    assert forall|d: int|
                        0 <= d < 9 implies nth_bit32(#[trigger] pt.page_directory@[d].value, 0)
                        == nth_bit32(pre_dir[d].value, 0) by {
                    }
                }
                lemma_map_step(
                    pre_alloc,
                    pre_dir,
                    frames,
                    pt.page_directory@,
                    fresh,
                    pdi,
                    msf,
                    reserve_top,
                    bits as int,
                    marked,
                );
            }
        }
        let ghost mapped_bm = frames.bitmap@;
        frames.lock_page(i);
        proof {
            assert(marks_kept(pre, frames.bitmap@));
            if viable {
                pagetable::lemma_count_present_bounds(pt.page_directory@, 9);
                assert forall|j: int|
                    ms_pages + 1 + pagetable::count_present_upto(pt.page_directory@, 9) <= j
                        < reserve_top implies !(#[trigger] frames.bitmap@[j]) by {
                    assert(j > i);
                    assert(!mapped_bm[j]);
                    assert(0 <= j < mapped_bm.len());
                    assert(0 <= i < mapped_bm.len());
                    if mapped_bm[i as int] {
                    } else {
                        assert(frames.bitmap@ == mapped_bm.update(i as int, true));
                        assert(mapped_bm.update(i as int, true)[j] == mapped_bm[j]);
                    }
                }
                assert forall|j: int|
                    KERNEL_SPACE_START + KERNEL_SPACE_RANGE <= j < bits implies (
                    #[trigger] frames.bitmap@[j]) == marked[j] by {
                    assert(j > i);
                    assert(mapped_bm[j] == marked[j]);
                    assert(0 <= j < mapped_bm.len());
                    assert(0 <= i < mapped_bm.len());
                    if mapped_bm[i as int] {
                    } else {
                        assert(frames.bitmap@ == mapped_bm.update(i as int, true));
                        assert(mapped_bm.update(i as int, true)[j] == mapped_bm[j]);
                    }
                }
            }
        }
        i += 1;
    }
    let mut i: usize = ms_pages;
    while i < KERNEL_SPACE_START + KERNEL_SPACE_RANGE
        invariant
            frames.wf(),
            pt.wf(),
            ms_pages <= i <= KERNEL_SPACE_START + KERNEL_SPACE_RANGE,
            KERNEL_SPACE_START + KERNEL_SPACE_RANGE <= frames.bitmap.size,
            frames.bitmap.size == bits,
            0x2100 <= bits <= 0xf_ffff,
            frames.is_initialized(),
            pt.heap_start == 0,
            pt.last_mapped == 0,
            pt.page_count == bits,
            pt.paging_enabled == false,
            pt.memory_start == memory_start,
            marks_kept(marked, frames.bitmap@),
            viable == init_viable(mmap@, kernel_start as int, kernel_end as int),
            marked == pageframe::grub_view(mmap@, kernel_start as int, kernel_end as int),
            bits == total_mem(mmap@) / PAGE_SIZE as int,
            ms_pages == msf,
            reserve_top == msf + bits as int / 1024 + 2,
            reserve_top <= KERNEL_SPACE_START + KERNEL_SPACE_RANGE,
            1 <= ms_pages,
            !pt.dir_present(8),
            viable ==> forall|j: int|
                ms_pages + 1 + pagetable::count_present_upto(pt.page_directory@, 9) <= j
                    < reserve_top ==> !(#[trigger] frames.bitmap@[j]),
            viable ==> forall|j: int|
                KERNEL_SPACE_START + KERNEL_SPACE_RANGE <= j < bits ==> (
                #[trigger] frames.bitmap@[j]) == marked[j],
        decreases KERNEL_SPACE_START + KERNEL_SPACE_RANGE - i,
    {
        let ghost pre_alloc = frames;
        let ghost pre = frames.bitmap@;
        let ghost pre_dir = pt.page_directory@;
        proof {
            if viable {
                lemma_reserve_free_candidate(pre_alloc, pre_dir, msf, reserve_top, bits as int);
            }
        }
        let res = pt.memory_map(i * 0x1000, i * 0x1000, &mut frames);
        if res == MapResult::OutOfFrames {
            proof {
                if viable {
                    let lo = msf + 1 + pagetable::count_present_upto(pre_dir, 9);
                    assert(pre_alloc.candidate(MemorySpace::Kernel, 1, lo));
                    assert(pre[lo]);
                    assert(false);
                }
            }
            return None;
        }
        proof {
            assert(marks_kept(pre, frames.bitmap@));
            if viable {
                let pdi = pagetable::pdi_of(i as int * 4096);
                assert(pdi <= 7) by {
                    vstd::arithmetic::div_mod::lemma_div_is_ordered(
                        i as int * 4096,
                        0x1fff000,
                        0x40_0000,
                    );
                }
                let fresh = res == MapResult::Mapped && !nth_bit32(pre_dir[pdi].value, 0);
                if !fresh {
                    if res == MapResult::Mapped {
                        assert(pt.page_directory@ == pre_dir);
                    }
                    assert(pt.page_directory@ == pre_dir);
                    assert forall|d: int|
                        0 <= d < 9 implies nth_bit32(#[trigger] pt.page_directory@[d].value, 0)
                        == nth_bit32(pre_dir[d].value, 0) by {
                    }
                }
                lemma_map_step(
                    pre_alloc,
                    pre_dir,
                    frames,
                    pt.page_directory@,
                    fresh,
                    pdi,
                    msf,
                    reserve_top,
                    bits as int,
                    marked,
                );
            }
        }
        i += 1;
    }
    let mut i: usize = bits / 1024 + 2 + ms_pages;
    while i < KERNEL_SPACE_START + KERNEL_SPACE_RANGE
        invariant
            frames.wf(),
            pt.wf(),
            bits / 1024 + 2 + ms_pages <= i,
            i <= KERNEL_SPACE_START + KERNEL_SPACE_RANGE || i == bits / 1024 + 2 + ms_pages,
            KERNEL_SPACE_START + KERNEL_SPACE_RANGE <= frames.bitmap.size,
            frames.bitmap.size == bits,
            0x2100 <= bits <= 0xf_ffff,
            frames.is_initialized(),
            pt.heap_start == 0,
            pt.last_mapped == 0,
            pt.page_count == bits,
            pt.paging_enabled == false,
            pt.memory_start == memory_start,
            marks_kept(marked, frames.bitmap@),
            viable == init_viable(mmap@, kernel_start as int, kernel_end as int),
            marked == pageframe::grub_view(mmap@, kernel_start as int, kernel_end as int),
            bits == total_mem(mmap@) / PAGE_SIZE as int,
            ms_pages == msf,
            reserve_top == msf + bits as int / 1024 + 2,
            reserve_top <= KERNEL_SPACE_START + KERNEL_SPACE_RANGE,
            1 <= ms_pages,
            !pt.dir_present(8),
            viable ==> forall|j: int|
                ms_pages + 1 + pagetable::count_present_upto(pt.page_directory@, 9) <= j
                    < reserve_top ==> !(#[trigger] frames.bitmap@[j]),
            viable ==> forall|j: int|
                KERNEL_SPACE_START + KERNEL_SPACE_RANGE <= j < bits ==> (
                #[trigger] frames.bitmap@[j]) == marked[j],
        decreases KERNEL_SPACE_START + KERNEL_SPACE_RANGE - i,
    {
        let ghost pre = frames.bitmap@;
        proof {
            assert(pre.len() == bits);
        }
        frames.lock_page(i);
        proof {
            assert(marks_kept(pre, frames.bitmap@));
            if viable {
                pagetable::lemma_count_present_bounds(pt.page_directory@, 9);
                assert forall|j: int|
                    ms_pages + 1 + pagetable::count_present_upto(pt.page_directory@, 9) <= j
                        < reserve_top implies !(#[trigger] frames.bitmap@[j]) by {
                    assert(j < reserve_top);
                    assert(j != i);
                    assert(!pre[j]);
                    assert(0 <= j < pre.len());
                    assert(0 <= i < pre.len());
                    if pre[i as int] {
                    } else {
                        assert(frames.bitmap@ == pre.update(i as int, true));
                        assert(pre.update(i as int, true)[j] == pre[j]);
                    }
                }
                assert forall|j: int|
                    KERNEL_SPACE_START + KERNEL_SPACE_RANGE <= j < bits implies (
                    #[trigger] frames.bitmap@[j]) == marked[j] by {
                    assert(j != i);
                    assert(pre[j] == marked[j]);
                    assert(0 <= j < pre.len());
                    assert(0 <= i < pre.len());
                    if pre[i as int] {
                    } else {
                        assert(frames.bitmap@ == pre.update(i as int, true));
                        assert(pre.update(i as int, true)[j] == pre[j]);
                    }
                }
            }
        }
        i += 1;
    }
    pt.enable_paging();

    // Back the first page of the growable user arena.
    let ghost pre_user = frames.bitmap@;
    proof {
        assert(pre_user.len() == bits);
    }
    let page = frames.request_free_page(MemorySpace::User);
    if page == 0 {
        proof {
            if viable {
                let j = choose|j: int|
                    KERNEL_SPACE_START + KERNEL_SPACE_RANGE + 1 <= j && j + 1 <= bits && !(
                    #[trigger] marked[j]);
                assert(!pre_user[j]);
                assert(frames.candidate(MemorySpace::User, 1, j));
                assert(!pageframe::run_free(pre_user, j, 1));
                assert(false);
            }
        }
        return None;
    }
    proof {
        assert(marks_kept(pre_user, frames.bitmap@));
        assert((page as int) / (PAGE_SIZE as int) >= KERNEL_SPACE_START + KERNEL_SPACE_RANGE + 1);
        assert((page as int) / (PAGE_SIZE as int) < bits);
        vstd::arithmetic::div_mod::lemma_fundamental_div_mod(page as int, PAGE_SIZE as int);
        assert(page > PAGE_SIZE * (KERNEL_SPACE_START + KERNEL_SPACE_RANGE)
            && page <= 0xffff_f000) by (nonlinear_arith)
            requires
                page == (PAGE_SIZE as int) * ((page as int) / (PAGE_SIZE as int)) + 0,
                KERNEL_SPACE_START + KERNEL_SPACE_RANGE + 1 <= (page as int) / (PAGE_SIZE as int),
                (page as int) / (PAGE_SIZE as int) < bits,
                bits <= 0xf_ffff,
                PAGE_SIZE == 4096,
                KERNEL_SPACE_START == 0,
                KERNEL_SPACE_RANGE == 0x2000,
        {
        }
    }
    let virtual_page = 0x1000 * (KERNEL_SPACE_START + KERNEL_SPACE_RANGE);
    let ghost pre_map = frames.bitmap@;
    let ghost pre_map_dir = pt.page_directory@;
    proof {
        if viable {
            // The user frame came from the user window; the reserve's
            // remaining frames are still free.
            let uf = (page as int) / (PAGE_SIZE as int);
            assert(pre_map == pre_user.update(uf, true));
            pagetable::lemma_count_present_bounds(pt.page_directory@, 9);
            assert forall|j: int|
                msf + 1 + pagetable::count_present_upto(pt.page_directory@, 9) <= j
                    < reserve_top implies !(#[trigger] pre_map[j]) by {
                assert(!pre_user[j]);
                assert(j < reserve_top);
                assert(uf >= KERNEL_SPACE_START + KERNEL_SPACE_RANGE + 1);
                assert(j != uf);
                assert(0 <= j < pre_user.len());
                assert(0 <= uf < pre_user.len());
                assert(pre_user.update(uf, true)[j] == pre_user[j]);
            }
            lemma_reserve_free_candidate(frames, pre_map_dir, msf, reserve_top, bits as int);
        }
    }
    let res = pt.memory_map(virtual_page, page, &mut frames);
    if res == MapResult::OutOfFrames {
        proof {
            if viable {
                let lo = msf + 1 + pagetable::count_present_upto(pre_map_dir, 9);
                assert(pre_map[lo]);
                assert(false);
            }
        }
        return None;
    }
    proof {
        assert(marks_kept(pre_map, frames.bitmap@));
    }

    // The bounded kernel arena sits above the page-table reserve; the
    // growable user arena starts at the kernel window's top.
    let kbase = memory_start + 0x1000 * (bits / 1024 + 2);
    let kernel_heap = Arena::empty(
        kbase,
        0x1000 * (KERNEL_SPACE_START + KERNEL_SPACE_RANGE) - kbase,
    );
    let user_heap = Arena::empty(virtual_page, 0x1000);
    let m = MemoryManager { frames, pt, kernel_heap, user_heap };
    proof {
        assert(m.wf());
    }
    Some(m)
}

/// Splits a 32-bit virtual address into its page-directory index
/// (top 10 bits) and page-table index (middle 10 bits).
pub fn page_map_indexer(v_addr: usize) -> (r: (usize, usize))
    requires
        v_addr <= 0xffff_ffff,
    ensures
        r.0 == v_addr as int / 0x40_0000,
        r.1 == (v_addr as int / 0x1000) % 0x400,
        r.0 < 1024,
        r.1 < 1024,
{
    let pdindex = v_addr >> 22;
    let ptindex = v_addr >> 12 & 0x03FF;
    proof {
        let v: usize = v_addr;
        assert(v <= 0xffff_ffff ==> (v >> 22u32) == v as int / 0x40_0000 && ((v >> 12u32)
            & 0x3ffusize) == (v as int / 0x1000) % 0x400 && (v >> 22u32) < 1024 && ((v >> 12u32)
            & 0x3ffusize) < 1024) by (bit_vector);
    }
    (pdindex, ptindex)
}

} // verus!
