//! Physical frame allocator: one bit per 4096-byte frame, `true` for
//! unavailable (reserved or locked), `false` for free, with byte
//! counters that always match the bitmap's content.

use vstd::prelude::*;

verus! {

use crate::ferramenta::Bitmap;
use crate::memory;
use crate::memory::{MemorySpace, PAGE_SIZE, KERNEL_SPACE_START, KERNEL_SPACE_RANGE, total_mem, MIN_TOTAL_MEMORY};
use crate::multiboot::{MultibootMmapEntry, MULTIBOOT_MEMORY_AVAILABLE};

/// Number of free (`false`) bits in a bitmap view.
pub open spec fn count_free(s: Seq<bool>) -> nat
    decreases s.len(),
{
    if s.len() == 0 {
        0
    } else {
        count_free(s.drop_last()) + if s.last() {
            0nat
        } else {
            1nat
        }
    }
}

pub proof fn lemma_count_free_le_len(s: Seq<bool>)
    ensures
        count_free(s) <= s.len(),
    decreases s.len(),
{
    if s.len() > 0 {
        lemma_count_free_le_len(s.drop_last());
    }
}

/// Flipping one bit changes the free count by exactly that bit's move.
pub proof fn lemma_count_free_update(s: Seq<bool>, i: int, v: bool)
    requires
        0 <= i < s.len(),
    ensures
        count_free(s.update(i, v)) == count_free(s) + (if s[i] && !v {
            1int
        } else if !s[i] && v {
            -1int
        } else {
            0int
        }),
    decreases s.len(),
{
    let t = s.update(i, v);
    if i == s.len() - 1 {
        assert(t.drop_last() =~= s.drop_last());
    } else {
        assert(t.drop_last() =~= s.drop_last().update(i, v));
        lemma_count_free_update(s.drop_last(), i, v);
    }
}

/// A free bit means the free count is positive.
pub proof fn lemma_count_free_pos(s: Seq<bool>, i: int)
    requires
        0 <= i < s.len(),
        !s[i],
    ensures
        count_free(s) >= 1,
    decreases s.len(),
{
    if i < s.len() - 1 {
        lemma_count_free_pos(s.drop_last(), i);
    }
}

/// An occupied bit means at least one bit is not free.
pub proof fn lemma_count_free_lt_len(s: Seq<bool>, i: int)
    requires
        0 <= i < s.len(),
        s[i],
    ensures
        count_free(s) <= s.len() - 1,
    decreases s.len(),
{
    lemma_count_free_le_len(s.drop_last());
    if i < s.len() - 1 {
        lemma_count_free_lt_len(s.drop_last(), i);
    }
}

/// When every bit is set, nothing is free.
pub proof fn lemma_count_free_all_set(s: Seq<bool>)
    requires
        forall|i: int| 0 <= i < s.len() ==> s[i],
    ensures
        count_free(s) == 0,
    decreases s.len(),
{
    if s.len() > 0 {
        lemma_count_free_all_set(s.drop_last());
    }
}

/// Frames `i .. i + n` are all free in the bitmap view `s`.
pub open spec fn run_free(s: Seq<bool>, i: int, n: int) -> bool {
    forall|j: int| i <= j < i + n ==> !s[j]
}

/// `s` with frames `i .. i + n` forced to occupied.
pub open spec fn mark_run(s: Seq<bool>, i: int, n: int) -> Seq<bool> {
    Seq::new(s.len(), |k: int| i <= k < i + n || s[k])
}

/// `s` with frames `lo .. hi` forced to free.
pub open spec fn clear_range(s: Seq<bool>, lo: int, hi: int) -> Seq<bool> {
    Seq::new(s.len(), |k: int| !(lo <= k < hi) && s[k])
}

/// Index of the first frame at or above byte address `x`.
pub open spec fn page_index_of(x: int) -> int {
    (x + 4095) / 4096
}

/// Index of the first frame at or above byte address `x`, safe for
/// any 32-bit address.
pub fn page_index(x: usize) -> (r: usize)
    requires
        x <= 0xffff_ffff,
    ensures
        r == page_index_of(x as int),
{
    let q = x / 0x1000;
    let rem = x % 0x1000;
    proof {
        vstd::arithmetic::div_mod::lemma_fundamental_div_mod(x as int, 4096);
        if rem == 0 {
            vstd::arithmetic::div_mod::lemma_div_multiples_vanish_fancy(q as int, 4095, 4096);
            assert(x as int + 4095 == 4096 * (q as int) + 4095);
        } else {
            vstd::arithmetic::div_mod::lemma_div_multiples_vanish_fancy(
                q as int + 1,
                rem as int - 1,
                4096,
            );
            assert(x as int + 4095 == 4096 * (q as int + 1) + (rem as int - 1));
        }
    }
    if rem == 0 {
        q
    } else {
        q + 1
    }
}

/// Whether a boot memory-map entry releases frames: the region is
/// tagged available, starts inside physical memory, and is not the
/// lowest region, which the kernel never claims.
pub open spec fn entry_applies(e: MultibootMmapEntry, total: int) -> bool {
    e.tag_type == MULTIBOOT_MEMORY_AVAILABLE && e.addr < total && e.addr != 0
}

/// One memory-map entry applied to the bitmap view.
pub open spec fn apply_entry(s: Seq<bool>, e: MultibootMmapEntry, total: int) -> Seq<bool> {
    if entry_applies(e, total) {
        clear_range(s, page_index_of(e.addr as int), page_index_of(e.addr as int) + page_index_of(e.len as int))
    } else {
        s
    }
}

/// Entries `k ..` applied to the bitmap view, in order.
pub open spec fn apply_entries(
    s: Seq<bool>,
    entries: Seq<MultibootMmapEntry>,
    k: int,
    total: int,
) -> Seq<bool>
    decreases entries.len() - k,
{
    if k < 0 || k >= entries.len() {
        s
    } else {
        apply_entries(apply_entry(s, entries[k], total), entries, k + 1, total)
    }
}

/// The bitmap content after boot initialization: every frame reserved,
/// then the available regions released, then the kernel image's own
/// frames and the frames holding the bitmap re-reserved.
pub open spec fn grub_view(
    entries: Seq<MultibootMmapEntry>,
    kernel_start: int,
    kernel_end: int,
) -> Seq<bool> {
    let total = total_mem(entries);
    let bits = total / PAGE_SIZE as int;
    let base = Seq::new(bits as nat, |k: int| true);
    let cleared = apply_entries(base, entries, 0, total);
    let with_kernel = mark_run(
        cleared,
        page_index_of(kernel_start),
        page_index_of(kernel_end - kernel_start),
    );
    mark_run(with_kernel, page_index_of(kernel_end), page_index_of(bits / 8))
}

/// First frame of the window owned by a memory space.
pub open spec fn window_start(space: MemorySpace) -> int {
    match space {
        MemorySpace::Kernel => KERNEL_SPACE_START as int,
        MemorySpace::User => KERNEL_SPACE_START + KERNEL_SPACE_RANGE,
    }
}

/// The physical frame allocator. Counters are in bytes and track the
/// bitmap exactly: `free_mem` counts the free frames, and the locked
/// and reserved counters together cover the unavailable frames.
pub struct Allocator {
    pub free_mem: usize,
    pub locked_mem: usize,
    pub reserved_mem: usize,
    pub unusable_mem: u64,
    pub initialized: bool,
    pub bitmap: Bitmap,
}

impl Allocator {
    pub open spec fn wf(self) -> bool {
        &&& self.bitmap.wf()
        &&& self.bitmap.size <= 0xf_ffff
        &&& self.free_mem == PAGE_SIZE * count_free(self.bitmap@)
        &&& self.locked_mem + self.reserved_mem == PAGE_SIZE * (self.bitmap@.len() - count_free(
            self.bitmap@,
        ))
    }

    pub open spec fn is_initialized(self) -> bool {
        self.initialized
    }

    /// One past the last frame a run may occupy, per memory space.
    pub open spec fn window_cap(self, space: MemorySpace) -> int {
        match space {
            MemorySpace::Kernel => KERNEL_SPACE_START + KERNEL_SPACE_RANGE,
            MemorySpace::User => self.bitmap.size as int,
        }
    }

    /// Frame `i` may start a run of `n` frames inside the window owned
    /// by `space`: the search begins one frame above the window's
    /// start, and the whole run must stay inside the window.
    pub open spec fn candidate(self, space: MemorySpace, n: int, i: int) -> bool {
        &&& window_start(space) + 1 <= i
        &&& i + n <= self.window_cap(space)
    }

    /// A fresh allocator; `read_grub_mmap` must run once before any
    /// frame can be handed out.
    pub fn new() -> (r: Allocator)
        ensures
            r.wf(),
            !r.is_initialized(),
            r.bitmap.size == 0,
            r.free_mem == 0,
            r.locked_mem == 0,
            r.reserved_mem == 0,
    {
        Allocator {
            free_mem: 0,
            locked_mem: 0,
            reserved_mem: 0,
            unusable_mem: 0,
            initialized: false,
            bitmap: Bitmap { buffer: Vec::new(), size: 0 },
        }
    }

    /// Marks one frame as locked; a frame that is already unavailable
    /// is left untouched, so redundant locking is a silent no-op.
    pub fn lock_page(&mut self, index: usize)
        requires
            old(self).wf(),
            index < old(self).bitmap.size,
        ensures
            final(self).wf(),
            old(self).bitmap@[index as int] ==> *final(self) == *old(self),
            !old(self).bitmap@[index as int] ==> {
                &&& final(self).bitmap@ == old(self).bitmap@.update(index as int, true)
                &&& final(self).locked_mem == old(self).locked_mem + PAGE_SIZE
                &&& final(self).free_mem == old(self).free_mem - PAGE_SIZE
                &&& final(self).reserved_mem == old(self).reserved_mem
                &&& final(self).unusable_mem == old(self).unusable_mem
                &&& final(self).is_initialized() == old(self).is_initialized()
                &&& final(self).bitmap.size == old(self).bitmap.size
                &&& final(self).bitmap.buffer@.len() == old(self).bitmap.buffer@.len()
            },
    {
        if self.bitmap.get(index) == false {
            proof {
                lemma_count_free_pos(self.bitmap@, index as int);
                lemma_count_free_update(self.bitmap@, index as int, true);
                lemma_count_free_le_len(self.bitmap@);
                let len: int = self.bitmap@.len() as int;
                let cf: int = count_free(self.bitmap@) as int;
                assert(PAGE_SIZE == 4096);
                assert(self.locked_mem + self.reserved_mem == 4096 * (len - cf));
                assert(4096 * (len - cf) <= 4096 * (0xf_ffff - 1)) by (nonlinear_arith)
                    requires
                        1 <= cf,
                        cf <= len,
                        len <= 0xf_ffff,
                {
                }
            }
            self.bitmap.set(index, true);
            self.locked_mem += PAGE_SIZE;
            self.free_mem -= PAGE_SIZE;
        }
    }

    /// Marks one frame as free again; unlocking an already-free frame
    /// is reported by the caller's diagnostics and changes nothing.
    fn unlock_page(&mut self, index: usize)
        requires
            old(self).wf(),
            index < old(self).bitmap.size,
            old(self).bitmap@[index as int] ==> old(self).locked_mem >= PAGE_SIZE,
        ensures
            final(self).wf(),
            !old(self).bitmap@[index as int] ==> *final(self) == *old(self),
            old(self).bitmap@[index as int] ==> {
                &&& final(self).bitmap@ == old(self).bitmap@.update(index as int, false)
                &&& final(self).locked_mem == old(self).locked_mem - PAGE_SIZE
                &&& final(self).free_mem == old(self).free_mem + PAGE_SIZE
                &&& final(self).reserved_mem == old(self).reserved_mem
                &&& final(self).unusable_mem == old(self).unusable_mem
                &&& final(self).is_initialized() == old(self).is_initialized()
                &&& final(self).bitmap.size == old(self).bitmap.size
                &&& final(self).bitmap.buffer@.len() == old(self).bitmap.buffer@.len()
            },
    {
        if self.bitmap.get(index) == true {
            proof {
                lemma_count_free_update(self.bitmap@, index as int, false);
                lemma_count_free_lt_len(self.bitmap@, index as int);
                let len: int = self.bitmap@.len() as int;
                let cf: int = count_free(self.bitmap@) as int;
                assert(PAGE_SIZE == 4096);
                assert(self.free_mem == 4096 * cf);
                assert(4096 * cf <= 4096 * (0xf_ffff - 1)) by (nonlinear_arith)
                    requires
                        0 <= cf,
                        cf <= len - 1,
                        len <= 0xf_ffff,
                {
                }
            }
            self.bitmap.set(index, false);
            self.free_mem += PAGE_SIZE;
            self.locked_mem -= PAGE_SIZE;
        }
    }

    /// Moves every free frame in `index .. index + len` to reserved.
    fn reserve_mem(&mut self, index: usize, len: usize)
        requires
            old(self).wf(),
            index + len <= old(self).bitmap.size,
        ensures
            final(self).wf(),
            forall|j: int|
                0 <= j < final(self).bitmap.size ==> final(self).bitmap@[j] == (index <= j < index
                    + len || old(self).bitmap@[j]),
            final(self).bitmap.size == old(self).bitmap.size,
            final(self).bitmap.buffer@.len() == old(self).bitmap.buffer@.len(),
            final(self).locked_mem == old(self).locked_mem,
            final(self).reserved_mem == old(self).reserved_mem + old(self).free_mem - final(self).free_mem,
            final(self).free_mem <= old(self).free_mem,
            final(self).unusable_mem == old(self).unusable_mem,
            final(self).is_initialized() == old(self).is_initialized(),
    {
        let mut i: usize = 0;
        while i < len
            invariant
                self.wf(),
                i <= len,
                index + len <= self.bitmap.size,
                self.bitmap.size == old(self).bitmap.size,
                self.bitmap.buffer@.len() == old(self).bitmap.buffer@.len(),
                forall|j: int|
                    0 <= j < self.bitmap.size ==> self.bitmap@[j] == (index <= j < index + i
                        || old(self).bitmap@[j]),
                self.locked_mem == old(self).locked_mem,
                self.reserved_mem == old(self).reserved_mem + old(self).free_mem - self.free_mem,
                self.free_mem <= old(self).free_mem,
                self.unusable_mem == old(self).unusable_mem,
                self.is_initialized() == old(self).is_initialized(),
            decreases len - i,
        {
            if self.bitmap.get(index + i) == false {
                proof {
                    lemma_count_free_pos(self.bitmap@, index + i);
                    lemma_count_free_update(self.bitmap@, index + i, true);
                    lemma_count_free_le_len(self.bitmap@);
                    let blen: int = self.bitmap@.len() as int;
                    let cf: int = count_free(self.bitmap@) as int;
                    assert(self.locked_mem + self.reserved_mem == 4096 * (blen - cf));
                    assert(4096 * (blen - cf) <= 4096 * (0xf_ffff - 1)) by (nonlinear_arith)
                        requires
                            1 <= cf,
                            cf <= blen,
                            blen <= 0xf_ffff,
                    {
                    }
                }
                self.bitmap.set(index + i, true);
                self.reserved_mem += PAGE_SIZE;
                self.free_mem -= PAGE_SIZE;
            }
            i += 1;
        }
    }

    /// Moves every reserved frame in `index .. index + len` back to
    /// free; used once at boot, before any frame is locked, to release
    /// the regions the boot memory map reports available.
    fn unreserve_mem(&mut self, index: usize, len: usize)
        requires
            old(self).wf(),
            index + len <= old(self).bitmap.size,
            old(self).locked_mem == 0,
        ensures
            final(self).wf(),
            forall|j: int|
                0 <= j < final(self).bitmap.size ==> final(self).bitmap@[j] == (!(index <= j
                    < index + len) && old(self).bitmap@[j]),
            final(self).bitmap.size == old(self).bitmap.size,
            final(self).bitmap.buffer@.len() == old(self).bitmap.buffer@.len(),
            final(self).locked_mem == 0,
            final(self).reserved_mem == old(self).reserved_mem + old(self).free_mem - final(self).free_mem,
            final(self).free_mem >= old(self).free_mem,
            final(self).unusable_mem == old(self).unusable_mem,
            final(self).is_initialized() == old(self).is_initialized(),
    {
        let mut i: usize = 0;
        while i < len
            invariant
                self.wf(),
                i <= len,
                index + len <= self.bitmap.size,
                self.bitmap.size == old(self).bitmap.size,
                self.bitmap.buffer@.len() == old(self).bitmap.buffer@.len(),
                forall|j: int|
                    0 <= j < self.bitmap.size ==> self.bitmap@[j] == (!(index <= j < index + i)
                        && old(self).bitmap@[j]),
                self.locked_mem == 0,
                self.reserved_mem == old(self).reserved_mem + old(self).free_mem - self.free_mem,
                self.free_mem >= old(self).free_mem,
                self.unusable_mem == old(self).unusable_mem,
                self.is_initialized() == old(self).is_initialized(),
            decreases len - i,
        {
            if self.bitmap.get(index + i) == true {
                proof {
                    lemma_count_free_update(self.bitmap@, index + i, false);
                    lemma_count_free_lt_len(self.bitmap@, index + i);
                    let blen: int = self.bitmap@.len() as int;
                    let cf: int = count_free(self.bitmap@) as int;
                    assert(self.free_mem == 4096 * cf);
                    assert(4096 * cf <= 4096 * (0xf_ffff - 1)) by (nonlinear_arith)
                        requires
                            0 <= cf,
                            cf <= blen - 1,
                            blen <= 0xf_ffff,
                    {
                    }
                }
                self.bitmap.set(index + i, false);
                self.reserved_mem -= PAGE_SIZE;
                self.free_mem += PAGE_SIZE;
            }
            i += 1;
        }
    }

    /// One-shot boot initialization from the memory map: sizes the
    /// bitmap from the total physical memory, reserves every frame,
    /// releases the regions reported available (except the lowest),
    /// then re-reserves the kernel image and the bitmap's own frames.
    /// A second call is a no-op. Too little memory, or more than the
    /// 32-bit address width can hold, halts the kernel, so the caller
    /// must rule both out before calling.
    pub fn read_grub_mmap(&mut self, mmap: &Vec<MultibootMmapEntry>, kernel_start: usize, kernel_end: usize)
        requires
            old(self).wf(),
            !old(self).is_initialized() ==> {
                &&& MIN_TOTAL_MEMORY <= total_mem(mmap@) <= 0xffff_ffff
                &&& kernel_start <= kernel_end
                &&& kernel_end <= 0xffff_ffff
                &&& page_index_of(kernel_start as int) + page_index_of(kernel_end - kernel_start)
                    <= total_mem(mmap@) / PAGE_SIZE as int
                &&& page_index_of(kernel_end as int) + page_index_of(
                    total_mem(mmap@) / PAGE_SIZE as int / 8,
                ) <= total_mem(mmap@) / PAGE_SIZE as int
            },
        ensures
            final(self).wf(),
            old(self).is_initialized() ==> *final(self) == *old(self),
            !old(self).is_initialized() ==> {
                &&& final(self).is_initialized()
                &&& final(self).bitmap.size == total_mem(mmap@) / PAGE_SIZE as int
                &&& final(self).bitmap@ == grub_view(mmap@, kernel_start as int, kernel_end as int)
                &&& final(self).locked_mem == 0
                &&& forall|j: int|
                    page_index_of(kernel_start as int) <= j < page_index_of(kernel_start as int)
                        + page_index_of(kernel_end - kernel_start) ==> final(self).bitmap@[j]
                &&& forall|j: int|
                    page_index_of(kernel_end as int) <= j < page_index_of(kernel_end as int)
                        + page_index_of(total_mem(mmap@) / PAGE_SIZE as int / 8)
                        ==> final(self).bitmap@[j]
            },
    {
        if self.initialized {
            return ;
        }
        self.initialized = true;
        let total = memory::get_mem_size(mmap);
        let bits: usize = total / PAGE_SIZE;
        let ghost base = Seq::new(bits as nat, |k: int| true);

        // Size and place the bitmap, with every frame reserved.
        let mut buffer: Vec<u8> = Vec::new();
        buffer.resize(bits / 8 + 8, 0u8);
        self.bitmap = Bitmap { buffer, size: bits };
        proof {
            assert(bits <= self.bitmap.buffer@.len() * 8) by (nonlinear_arith)
                requires
                    self.bitmap.buffer@.len() == bits / 8 + 8,
                    bits >= 0,
            {
            }
        }
        self.bitmap.erase();
        self.free_mem = 0;
        self.locked_mem = 0;
        self.reserved_mem = bits * PAGE_SIZE;
        proof {
            assert(self.bitmap@ =~= base);
            lemma_count_free_all_set(self.bitmap@);
            vstd::arithmetic::mul::lemma_mul_is_commutative(bits as int, PAGE_SIZE as int);
        }

        // Release the regions the memory map reports available, except
        // the lowest region, which is never claimed.
        let mut i: usize = 0;
        while i < mmap.len()
            invariant
                self.wf(),
                i <= mmap@.len(),
                self.bitmap.size == bits,
                bits == total_mem(mmap@) / PAGE_SIZE as int,
                total == total_mem(mmap@),
                total <= 0xffff_ffff,
                self.locked_mem == 0,
                self.is_initialized(),
                apply_entries(self.bitmap@, mmap@, i as int, total as int) == apply_entries(
                    base,
                    mmap@,
                    0,
                    total as int,
                ),
            decreases mmap@.len() - i,
        {
            let e = mmap[i];
            let ghost cur = self.bitmap@;
            if e.tag_type == MULTIBOOT_MEMORY_AVAILABLE && (e.addr as usize) < total && e.addr
                != 0 {
                let lo = page_index(e.addr as usize);
                let cnt = page_index(e.len as usize);
                let lo2 = if lo > bits {
                    bits
                } else {
                    lo
                };
                let hi2 = if lo + cnt > bits {
                    bits
                } else {
                    lo + cnt
                };
                if lo2 < hi2 {
                    self.unreserve_mem(lo2, hi2 - lo2);
                }
                proof {
                    assert(self.bitmap@ =~= apply_entry(cur, mmap@[i as int], total as int));
                }
            } else {
                proof {
                    assert(self.bitmap@ == apply_entry(cur, mmap@[i as int], total as int));
                }
            }
            i += 1;
        }

        // Re-reserve the kernel image's frames and the frames that the
        // bitmap itself occupies.
        let ghost cleared = self.bitmap@;
        let k_index = page_index(kernel_start);
        let k_len = page_index(kernel_end - kernel_start);
        self.reserve_mem(k_index, k_len);
        proof {
            assert(self.bitmap@ =~= mark_run(cleared, k_index as int, k_len as int));
        }
        let ghost with_kernel = self.bitmap@;
        let b_index = page_index(kernel_end);
        let b_len = page_index(bits / 8);
        self.reserve_mem(b_index, b_len);
        proof {
            assert(self.bitmap@ =~= mark_run(with_kernel, b_index as int, b_len as int));
            assert(self.bitmap@ == grub_view(mmap@, kernel_start as int, kernel_end as int));
        }
    }

    /// First-fit search for `n` contiguous free frames inside the
    /// window owned by `memory_space`. On success every frame of the
    /// run is locked and the run's base physical address is returned;
    /// on exhaustion the result is `0` and nothing at all changes.
    #[verifier::loop_isolation(false)]
    pub fn request_free_pages(&mut self, n: usize, memory_space: MemorySpace) -> (r: usize)
        requires
            old(self).wf(),
            1 <= n,
            memory_space == MemorySpace::Kernel ==> KERNEL_SPACE_START + KERNEL_SPACE_RANGE <= old(
                self,
            ).bitmap.size,
        ensures
            final(self).wf(),
            r == 0 ==> *final(self) == *old(self),
            r == 0 ==> forall|i: int|
                old(self).candidate(memory_space, n as int, i) ==> !run_free(
                    old(self).bitmap@,
                    i,
                    n as int,
                ),
            r != 0 ==> {
                &&& r % PAGE_SIZE == 0
                &&& old(self).candidate(memory_space, n as int, r as int / PAGE_SIZE as int)
                &&& run_free(old(self).bitmap@, r as int / PAGE_SIZE as int, n as int)
                &&& forall|i: int|
                    old(self).candidate(memory_space, n as int, i) && i < r as int
                        / PAGE_SIZE as int ==> !run_free(old(self).bitmap@, i, n as int)
                &&& final(self).bitmap@.len() == old(self).bitmap@.len()
                &&& forall|j: int|
                    0 <= j < old(self).bitmap@.len() ==> final(self).bitmap@[j] == (r as int
                        / PAGE_SIZE as int <= j < r as int / PAGE_SIZE as int + n || old(
                        self,
                    ).bitmap@[j])
                &&& final(self).locked_mem == old(self).locked_mem + n * PAGE_SIZE
                &&& final(self).free_mem == old(self).free_mem - n * PAGE_SIZE
                &&& final(self).reserved_mem == old(self).reserved_mem
                &&& final(self).unusable_mem == old(self).unusable_mem
                &&& final(self).is_initialized() == old(self).is_initialized()
                &&& final(self).bitmap.size == old(self).bitmap.size
                &&& final(self).bitmap.buffer@.len() == old(self).bitmap.buffer@.len()
            },
    {
        let start: usize = match memory_space {
            MemorySpace::Kernel => KERNEL_SPACE_START,
            MemorySpace::User => KERNEL_SPACE_START + KERNEL_SPACE_RANGE,
        };
        let cap: usize = match memory_space {
            MemorySpace::Kernel => KERNEL_SPACE_START + KERNEL_SPACE_RANGE,
            MemorySpace::User => self.bitmap.size,
        };
        if n > cap {
            return 0;
        }
        let mut i: usize = start + 1;
        while i + n <= cap
            invariant
                self.wf(),
                *self == *old(self),
                1 <= n <= cap,
                start + 1 <= i,
                i <= cap || i <= KERNEL_SPACE_START + KERNEL_SPACE_RANGE + 1,
                start == window_start(memory_space),
                cap == old(self).window_cap(memory_space),
                cap <= self.bitmap.size,
                memory_space == MemorySpace::Kernel ==> KERNEL_SPACE_START + KERNEL_SPACE_RANGE
                    <= self.bitmap.size,
                forall|c: int|
                    old(self).candidate(memory_space, n as int, c) && c < i ==> !run_free(
                        old(self).bitmap@,
                        c,
                        n as int,
                    ),
            decreases cap - i,
        {
            let next_i = self.bitmap.get_n_pages(i, n);
            if next_i == 0 {
                let ghost pre = *self;
                proof {
                    assert(self.bitmap@ =~= mark_run(pre.bitmap@, i as int, 0));
                }
                let mut j: usize = 0;
                while j < n
                    invariant
                        self.wf(),
                        j <= n,
                        i + n <= pre.bitmap.size,
                        run_free(pre.bitmap@, i as int, n as int),
                        self.bitmap.size == pre.bitmap.size,
                        self.bitmap.buffer@.len() == pre.bitmap.buffer@.len(),
                        self.bitmap@ == mark_run(pre.bitmap@, i as int, j as int),
                        self.locked_mem == pre.locked_mem + j * PAGE_SIZE,
                        self.free_mem == pre.free_mem - j * PAGE_SIZE,
                        self.reserved_mem == pre.reserved_mem,
                        self.unusable_mem == pre.unusable_mem,
                        self.is_initialized() == pre.is_initialized(),
                    decreases n - j,
                {
                    assert(0 <= i + j < pre.bitmap@.len());
                    assert(pre.bitmap@[i + j as int] == false);
                    assert(self.bitmap@[i + j as int] == pre.bitmap@[i + j as int]);
                    let ghost before = self.bitmap@;
                    self.lock_page(i + j);
                    proof {
                        assert(self.bitmap@ == before.update(i + j as int, true));
                        assert(self.bitmap@ =~= mark_run(pre.bitmap@, i as int, j + 1));
                    }
                    j += 1;
                }
                proof {
                    assert(forall|k: int|
                        0 <= k < pre.bitmap@.len() ==> self.bitmap@[k] == (i <= k < i + n
                            || pre.bitmap@[k]));
                }
                proof {
                    vstd::arithmetic::div_mod::lemma_mod_multiples_basic(
                        i as int,
                        PAGE_SIZE as int,
                    );
                    vstd::arithmetic::div_mod::lemma_div_multiples_vanish(
                        i as int,
                        PAGE_SIZE as int,
                    );
                    assert((i * PAGE_SIZE) as int / PAGE_SIZE as int == i as int);
                }
                return i * 0x1000;
            } else {
                proof {
                    assert forall|c: int|
                        old(self).candidate(memory_space, n as int, c) && c < next_i
                            + 1 implies !run_free(old(self).bitmap@, c, n as int) by {
                        if c >= i {
                            assert(self.bitmap@[next_i as int]);
                            assert(c <= next_i < c + n);
                        }
                    }
                }
                i = next_i + 1;
            }
        }
        0
    }

    /// `request_free_pages` for a single frame.
    pub fn request_free_page(&mut self, memory_space: MemorySpace) -> (r: usize)
        requires
            old(self).wf(),
            memory_space == MemorySpace::Kernel ==> KERNEL_SPACE_START + KERNEL_SPACE_RANGE <= old(
                self,
            ).bitmap.size,
        ensures
            final(self).wf(),
            r == 0 ==> *final(self) == *old(self),
            r == 0 ==> forall|i: int|
                old(self).candidate(memory_space, 1, i) ==> !run_free(old(self).bitmap@, i, 1),
            r != 0 ==> {
                &&& r % PAGE_SIZE == 0
                &&& old(self).candidate(memory_space, 1, r as int / PAGE_SIZE as int)
                &&& !old(self).bitmap@[r as int / PAGE_SIZE as int]
                &&& forall|i: int|
                    old(self).candidate(memory_space, 1, i) && i < r as int
                        / PAGE_SIZE as int ==> old(self).bitmap@[i]
                &&& final(self).bitmap@ == old(self).bitmap@.update(
                    r as int / PAGE_SIZE as int,
                    true,
                )
                &&& final(self).locked_mem == old(self).locked_mem + PAGE_SIZE
                &&& final(self).free_mem == old(self).free_mem - PAGE_SIZE
                &&& final(self).reserved_mem == old(self).reserved_mem
                &&& final(self).unusable_mem == old(self).unusable_mem
                &&& final(self).is_initialized() == old(self).is_initialized()
                &&& final(self).bitmap.size == old(self).bitmap.size
                &&& final(self).bitmap.buffer@.len() == old(self).bitmap.buffer@.len()
            },
    {
        let r = self.request_free_pages(1, memory_space);
        proof {
            if r != 0 {
                let f = r as int / PAGE_SIZE as int;
                assert(run_free(old(self).bitmap@, f, 1));
                assert(!old(self).bitmap@[f]);
                assert forall|i: int|
                    old(self).candidate(memory_space, 1, i) && i < f implies old(
                    self,
                ).bitmap@[i] by {
                    assert(!run_free(old(self).bitmap@, i, 1));
                }
                assert(self.bitmap@ =~= old(self).bitmap@.update(f, true));
            }
        }
        r
    }

    /// Returns the frame holding `address` to the free pool; freeing a
    /// frame that is already free is reported, never fatal.
    pub fn free_page(&mut self, address: usize)
        requires
            old(self).wf(),
            address / PAGE_SIZE < old(self).bitmap.size,
            old(self).bitmap@[address as int / PAGE_SIZE as int] ==> old(self).locked_mem
                >= PAGE_SIZE,
        ensures
            final(self).wf(),
            !old(self).bitmap@[address as int / PAGE_SIZE as int] ==> *final(self) == *old(self),
            old(self).bitmap@[address as int / PAGE_SIZE as int] ==> {
                &&& final(self).bitmap@ == old(self).bitmap@.update(
                    address as int / PAGE_SIZE as int,
                    false,
                )
                &&& final(self).locked_mem == old(self).locked_mem - PAGE_SIZE
                &&& final(self).free_mem == old(self).free_mem + PAGE_SIZE
                &&& final(self).reserved_mem == old(self).reserved_mem
            },
    {
        let index = address / 0x1000;
        if self.bitmap.get(index) {
            self.unlock_page(index);
        }
    }
}


/// A successful frame request never returns a frame that is already
/// marked unavailable — in particular, never one of the kernel image's
/// frames nor of the bitmap's own backing storage, which boot
/// initialization reserves before any request can run. Its inputs are
/// what `request_free_pages` ensures of a non-zero result and what
/// `read_grub_mmap` ensures of the marked ranges.
pub proof fn lemma_request_avoids_marked(
    a: Allocator,
    space: MemorySpace,
    n: int,
    r: int,
    lo: int,
    len: int,
    j: int,
)
    requires
        a.wf(),
        space == MemorySpace::Kernel ==> KERNEL_SPACE_START + KERNEL_SPACE_RANGE <= a.bitmap.size,
        r != 0,
        r % PAGE_SIZE as int == 0,
        a.candidate(space, n, r / PAGE_SIZE as int),
        run_free(a.bitmap@, r / PAGE_SIZE as int, n),
        forall|i: int| lo <= i < lo + len && 0 <= i < a.bitmap@.len() ==> #[trigger] a.bitmap@[i],
        r / PAGE_SIZE as int <= j < r / PAGE_SIZE as int + n,
    ensures
        !(lo <= j < lo + len),
{
    assert(!a.bitmap@[j]);
    assert(j < a.window_cap(space));
    assert(0 <= j < a.bitmap@.len());
    if lo <= j < lo + len {
        assert(a.bitmap@[j]);
    }
}

} // verus!
