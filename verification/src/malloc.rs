//! First-fit heap allocator with splitting and coalescing, operating
//! over two disjoint arenas: a size-bounded kernel arena and a
//! growable user arena. Memory is laid out as `[header][payload]`
//! blocks, 16-byte aligned; each header carries a magic sentinel, the
//! payload size and a freed flag. The header chain is modelled as a
//! bounds-checked typed view over the arena, indexed by byte offset.

use vstd::prelude::*;

verus! {

use crate::ferramenta;
use crate::ferramenta::align_up;
use crate::memory::{MemorySpace, PAGE_SIZE, KERNEL_SPACE_START, KERNEL_SPACE_RANGE};
use crate::pageframe;
use crate::pageframe::run_free;
use crate::pagetable;
use crate::pagetable::{MapResult, pdi_of};

/// Sentinel marking a valid allocation header.
pub const ALLOC_MAGIC: u16 = 0x4242;

/// Bytes of overhead in front of every payload.
pub const HEADER_SIZE: usize = 16;

/// One allocation header, as laid out in front of its payload:
/// `off` is the header's byte offset from the arena base.
#[derive(Debug, Clone, Copy, PartialEq, Eq, Structural)]
pub struct Block {
    pub off: usize,
    pub magic: u16,
    pub size: usize,
    pub freed: bool,
}

/// One past the last payload byte of a block, as an arena offset.
pub open spec fn blk_end(b: Block) -> int {
    b.off + HEADER_SIZE + b.size
}

/// The header chain is well formed: every header carries the magic
/// sentinel and a positive 16-byte-aligned size, blocks are adjacent
/// from the arena base upward, and the chain stays inside the mapped
/// backing.
pub open spec fn chain_wf(blocks: Seq<Block>, backing: int) -> bool {
    &&& forall|i: int|
        0 <= i < blocks.len() ==> (#[trigger] blocks[i].magic) == ALLOC_MAGIC && blocks[i].size > 0
            && blocks[i].size % 16 == 0
    &&& blocks.len() > 0 ==> blocks[0].off == 0
    &&& forall|i: int| 1 <= i < blocks.len() ==> (#[trigger] blocks[i].off) == blk_end(blocks[i - 1])
    &&& blocks.len() > 0 ==> blk_end(blocks.last()) <= backing
}

/// First arena offset past the chain: fresh allocations carve here.
pub open spec fn chain_used(blocks: Seq<Block>) -> int {
    if blocks.len() == 0 {
        0
    } else {
        blk_end(blocks.last())
    }
}

/// Sum of the payload sizes of the currently-live blocks.
pub open spec fn sum_live(blocks: Seq<Block>) -> int
    decreases blocks.len(),
{
    if blocks.len() == 0 {
        0
    } else {
        sum_live(blocks.drop_last()) + if blocks.last().freed {
            0int
        } else {
            blocks.last().size as int
        }
    }
}

/// Two adjacent blocks, the first absorbing the second and its header.
pub open spec fn merge_pair(a: Block, b: Block) -> Block {
    Block { off: a.off, magic: a.magic, size: (a.size + HEADER_SIZE + b.size) as usize, freed: a.freed }
}

/// The chain with every maximal run of adjacent freed blocks merged
/// into one freed block, pair by pair, as an allocating scan leaves it.
pub open spec fn merge_runs(s: Seq<Block>) -> Seq<Block>
    decreases s.len(),
{
    if s.len() == 0 {
        s
    } else if s.len() >= 2 && s[0].freed && s[1].freed {
        merge_runs(seq![merge_pair(s[0], s[1])] + s.skip(2))
    } else {
        seq![s[0]] + merge_runs(s.skip(1))
    }
}

/// The chain after the freed block at index `k` has absorbed every
/// freed block immediately following it, as `kfree` leaves it.
pub open spec fn coalesce_at(s: Seq<Block>, k: int) -> Seq<Block>
    decreases s.len(),
{
    if 0 <= k && k + 1 < s.len() && s[k].freed && s[k + 1].freed {
        coalesce_at(s.take(k) + seq![merge_pair(s[k], s[k + 1])] + s.skip(k + 2), k)
    } else {
        s
    }
}

/// No two adjacent blocks are both freed.
pub open spec fn normalized(s: Seq<Block>) -> bool {
    forall|i: int| 0 <= i < s.len() - 1 ==> !((#[trigger] s[i].freed) && s[i + 1].freed)
}

/// A full merge moves no live payload and keeps the chain's end.
proof fn lemma_merge_runs_sum(s: Seq<Block>, backing: int)
    requires
        chain_wf(s, backing) || chain_wf1(s, backing),
        backing <= 0xffff_ffff,
    ensures
        sum_live(merge_runs(s)) == sum_live(s),
        chain_used(merge_runs(s)) == chain_used(s),
    decreases s.len(),
{
    if s.len() == 0 {
    } else if s.len() >= 2 && s[0].freed && s[1].freed {
        let u = seq![merge_pair(s[0], s[1])] + s.skip(2);
        lemma_merge_pair_preserves(s, 0, backing);
        assert(s.take(0) + seq![merge_pair(s[0], s[1])] + s.skip(2) =~= u);
        lemma_merge_runs_sum(u, backing);
    } else {
        let s1 = s.skip(1);
        lemma_chain_wf_skip(s, backing, 1);
        lemma_merge_runs_sum(s1, backing);
        lemma_sum_live_concat(seq![s[0]], merge_runs(s1));
        lemma_sum_live_concat(seq![s[0]], s1);
        assert(seq![s[0]] + s1 =~= s);
        assert(merge_runs(s) == seq![s[0]] + merge_runs(s1));
        lemma_merge_runs_result(s1);
        if s1.len() > 0 {
            assert((seq![s[0]] + merge_runs(s1)).last() == merge_runs(s1).last());
            assert(s.last() == s1.last());
            assert(chain_used(merge_runs(s1)) == chain_used(s1));
            assert(chain_used(s1) == blk_end(s1.last()));
        } else {
            assert(merge_runs(s1).len() == 0);
            assert((seq![s[0]] + merge_runs(s1)).last() == s[0]);
        }
    }
}

/// A full merge leaves no adjacent freed pair, and keeps the head
/// block's offset and freed state.
proof fn lemma_merge_runs_result(s: Seq<Block>)
    ensures
        normalized(merge_runs(s)),
        merge_runs(s).len() > 0 <==> s.len() > 0,
        s.len() > 0 ==> merge_runs(s)[0].off == s[0].off && merge_runs(s)[0].freed == s[0].freed,
    decreases s.len(),
{
    if s.len() == 0 {
    } else if s.len() >= 2 && s[0].freed && s[1].freed {
        let u = seq![merge_pair(s[0], s[1])] + s.skip(2);
        lemma_merge_runs_result(u);
        assert(u[0].off == s[0].off && u[0].freed == s[0].freed);
    } else {
        let rest = merge_runs(s.skip(1));
        lemma_merge_runs_result(s.skip(1));
        let t = seq![s[0]] + rest;
        assert(merge_runs(s) == t);
        assert forall|i: int| 0 <= i < t.len() - 1 implies !((#[trigger] t[i].freed) && t[i
            + 1].freed) by {
            if i == 0 {
                if s[0].freed {
                    assert(s.len() >= 2 ==> !s[1].freed);
                    if s.len() >= 2 {
                        assert(t[1] == rest[0]);
                        assert(rest[0].freed == s.skip(1)[0].freed);
                    }
                }
            } else {
                assert(!(rest[i - 1].freed && rest[i].freed));
            }
        }
    }
}

/// Merging runs on an already-normalized chain changes nothing.
proof fn lemma_merge_runs_normalized(s: Seq<Block>)
    requires
        normalized(s),
    ensures
        merge_runs(s) == s,
    decreases s.len(),
{
    if s.len() == 0 {
    } else {
        assert(normalized(s.skip(1)));
        lemma_merge_runs_normalized(s.skip(1));
        assert(merge_runs(s) =~= s);
    }
}

/// Block ends never pass the chain's end, which stays inside the
/// backing.
proof fn lemma_chain_ends_bounded(s: Seq<Block>, backing: int)
    requires
        chain_wf(s, backing) || chain_wf1(s, backing),
    ensures
        forall|i: int| 0 <= i < s.len() ==> blk_end(s[i]) <= chain_used(s),
        chain_used(s) <= backing || s.len() == 0,
        forall|i: int| 0 <= i < s.len() ==> blk_end(s[i]) <= backing,
    decreases s.len(),
{
    if s.len() > 0 {
        let t = s.drop_last();
        assert(chain_wf1(t, backing)) by {
            assert forall|i: int| 1 <= i < t.len() implies (#[trigger] t[i].off) == blk_end(
                t[i - 1],
            ) by {
                assert(s[i].off == blk_end(s[i - 1]));
            }
            if t.len() > 0 {
                assert(s[s.len() - 1].off == blk_end(s[s.len() - 2]));
                assert(blk_end(t.last()) == s.last().off);
                assert(s.last().off <= blk_end(s.last()));
            }
        }
        lemma_chain_ends_bounded(t, backing);
        if t.len() > 0 {
            assert(s[s.len() - 1].off == blk_end(s[s.len() - 2]));
            assert(chain_used(t) == s.last().off);
        }
        assert forall|i: int| 0 <= i < s.len() implies blk_end(s[i]) <= chain_used(s) by {
            if i < s.len() - 1 {
                assert(blk_end(t[i]) <= chain_used(t));
            }
        }
    }
}

/// The live-payload sum splits over concatenation.
proof fn lemma_sum_live_concat(a: Seq<Block>, b: Seq<Block>)
    ensures
        sum_live(a + b) == sum_live(a) + sum_live(b),
    decreases b.len(),
{
    if b.len() == 0 {
        assert(a + b =~= a);
    } else {
        lemma_sum_live_concat(a, b.drop_last());
        assert((a + b).drop_last() =~= a + b.drop_last());
        assert((a + b).last() == b.last());
    }
}

/// Helper view of `chain_wf` without the start-at-zero clause, for
/// chains cut loose from the arena base.
pub open spec fn chain_wf1(s: Seq<Block>, backing: int) -> bool {
    &&& forall|i: int|
        0 <= i < s.len() ==> (#[trigger] s[i].magic) == ALLOC_MAGIC && s[i].size > 0 && s[i].size
            % 16 == 0
    &&& forall|i: int| 1 <= i < s.len() ==> (#[trigger] s[i].off) == blk_end(s[i - 1])
    &&& s.len() > 0 ==> blk_end(s.last()) <= backing
}

proof fn lemma_chain_wf_skip(s: Seq<Block>, backing: int, k: int)
    requires
        chain_wf(s, backing) || chain_wf1(s, backing),
        0 <= k <= s.len(),
    ensures
        chain_wf1(s.skip(k), backing),
{
    assert forall|i: int| 1 <= i < s.skip(k).len() implies (#[trigger] s.skip(k)[i].off)
        == blk_end(s.skip(k)[i - 1]) by {
        assert(s[k + i].off == blk_end(s[k + i - 1]));
    }
    if s.skip(k).len() > 0 {
        assert(s.skip(k).last() == s.last());
    }
}

/// Merging an adjacent freed pair anywhere preserves the chain's
/// well-formedness, its end, and its live sum.
#[verifier::rlimit(100)]
#[verifier::spinoff_prover]
proof fn lemma_merge_pair_preserves(s: Seq<Block>, k: int, backing: int)
    requires
        chain_wf(s, backing) || chain_wf1(s, backing),
        backing <= 0xffff_ffff,
        0 <= k,
        k + 1 < s.len(),
        s[k].freed == s[k + 1].freed,
    ensures
        chain_wf1(s.take(k) + seq![merge_pair(s[k], s[k + 1])] + s.skip(k + 2), backing),
        chain_wf(s, backing) ==> chain_wf(
            s.take(k) + seq![merge_pair(s[k], s[k + 1])] + s.skip(k + 2),
            backing,
        ),
        chain_used(s.take(k) + seq![merge_pair(s[k], s[k + 1])] + s.skip(k + 2)) == chain_used(s),
        s[k].freed ==> sum_live(s.take(k) + seq![merge_pair(s[k], s[k + 1])] + s.skip(k + 2))
            == sum_live(s),
        blk_end(merge_pair(s[k], s[k + 1])) == blk_end(s[k + 1]),
{
    let m = merge_pair(s[k], s[k + 1]);
    let t = s.take(k) + seq![m] + s.skip(k + 2);
    lemma_chain_ends_bounded(s, backing);
    assert(s[k + 1].off == blk_end(s[k]));
    assert(blk_end(s[k + 1]) <= backing);
    assert(s[k].size + HEADER_SIZE + s[k + 1].size <= 0xffff_ffff);
    assert(blk_end(m) == blk_end(s[k + 1]));
    assert forall|i: int| 1 <= i < t.len() implies (#[trigger] t[i].off) == blk_end(t[i - 1]) by {
        if i < k {
            assert(s[i].off == blk_end(s[i - 1]));
        } else if i == k {
            assert(s[i].off == blk_end(s[i - 1]));
        } else if i == k + 1 {
            assert(s[k + 2].off == blk_end(s[k + 1]));
        } else {
            assert(s[i + 1].off == blk_end(s[i]));
        }
    }
    assert forall|i: int|
        0 <= i < t.len() implies (#[trigger] t[i].magic) == ALLOC_MAGIC && t[i].size > 0
        && t[i].size % 16 == 0 by {
        if i < k {
            assert(s[i].magic == ALLOC_MAGIC);
        } else if i == k {
            assert(s[k].magic == ALLOC_MAGIC);
            assert(s[k + 1].magic == ALLOC_MAGIC);
        } else {
            assert(s[i + 1].magic == ALLOC_MAGIC);
        }
    }
    if k + 2 == s.len() {
        assert(t.last() == m);
        assert(blk_end(t.last()) == blk_end(s.last()));
    } else {
        assert(t.last() == s.last());
    }
    assert(chain_used(t) == chain_used(s));
    if k > 0 {
        assert(t[0] == s[0]);
    }
    if s[k].freed {
        assert(sum_live(t) == sum_live(s)) by {
            lemma_sum_live_concat(s.take(k) + seq![m], s.skip(k + 2));
            lemma_sum_live_concat(s.take(k), seq![m]);
            assert((s.take(k) + seq![m]) + s.skip(k + 2) =~= t);
            lemma_sum_live_concat(s.take(k) + seq![s[k], s[k + 1]], s.skip(k + 2));
            lemma_sum_live_concat(s.take(k), seq![s[k], s[k + 1]]);
            assert((s.take(k) + seq![s[k], s[k + 1]]) + s.skip(k + 2) =~= s);
            assert(sum_live(seq![m]) == 0) by {
                reveal_with_fuel(sum_live, 3);
                assert(seq![m].drop_last() =~= Seq::<Block>::empty());
                assert(seq![m].last() == m);
                assert(m.freed);
            }
            assert(sum_live(seq![s[k], s[k + 1]]) == 0) by {
                reveal_with_fuel(sum_live, 3);
                assert(seq![s[k], s[k + 1]].drop_last() =~= seq![s[k]]);
                assert(seq![s[k]].drop_last() =~= Seq::<Block>::empty());
                assert(seq![s[k]].last() == s[k]);
            }
        }
    }
}

/// Merging an adjacent freed pair anywhere does not change what a full
/// merge of the chain produces.
#[verifier::rlimit(100)]
#[verifier::spinoff_prover]
proof fn lemma_merge_runs_pair(s: Seq<Block>, k: int, backing: int)
    requires
        chain_wf(s, backing) || chain_wf1(s, backing),
        backing <= 0xffff_ffff,
        0 <= k,
        k + 1 < s.len(),
        s[k].freed,
        s[k + 1].freed,
    ensures
        merge_runs(s.take(k) + seq![merge_pair(s[k], s[k + 1])] + s.skip(k + 2)) == merge_runs(s),
    decreases s.len(),
{
    let m = merge_pair(s[k], s[k + 1]);
    let t = s.take(k) + seq![m] + s.skip(k + 2);
    lemma_chain_ends_bounded(s, backing);
    lemma_merge_pair_preserves(s, k, backing);
    if k == 0 {
        assert(t =~= seq![merge_pair(s[0], s[1])] + s.skip(2));
    } else if s[0].freed && s[1].freed {
        // The head pair merges first on both sides.
        let u = seq![merge_pair(s[0], s[1])] + s.skip(2);
        assert(merge_runs(s) == merge_runs(u));
        assert(chain_wf1(u, backing)) by {
            lemma_merge_pair_preserves(s, 0, backing);
            assert(s.take(0) + seq![merge_pair(s[0], s[1])] + s.skip(2) =~= u);
        }
        if k == 1 {
            // Overlapping pairs: both orders merge the same triple.
            assert(s[1].off == blk_end(s[0]));
            assert(s[2].off == blk_end(s[1]));
            assert(blk_end(s[2]) <= backing);
            assert(t[0] == s[0]);
            assert(t[1] == merge_pair(s[1], s[2]));
            assert(t[0].freed && t[1].freed);
            assert(merge_runs(t) == merge_runs(seq![merge_pair(t[0], t[1])] + t.skip(2)));
            assert(u[0] == merge_pair(s[0], s[1]));
            assert(u[1] == s[2]);
            assert(u[0].freed && u[1].freed);
            assert(merge_runs(u) == merge_runs(seq![merge_pair(u[0], u[1])] + u.skip(2)));
            assert(merge_pair(t[0], t[1]) == merge_pair(u[0], u[1]));
            assert(seq![merge_pair(t[0], t[1])] + t.skip(2) =~= seq![merge_pair(u[0], u[1])]
                + u.skip(2));
        } else {
            lemma_merge_runs_pair(u, k - 1, backing);
            assert(u[k - 1] == s[k]);
            assert(u[k] == s[k + 1]);
            assert(u.take(k - 1) + seq![merge_pair(u[k - 1], u[k])] + u.skip(k + 1) =~= seq![
                merge_pair(s[0], s[1]),
            ] + t.skip(2));
            assert(t[0] == s[0]);
            assert(t[1] == s[1]);
            assert(t[0].freed && t[1].freed);
            assert(merge_runs(t) == merge_runs(seq![merge_pair(t[0], t[1])] + t.skip(2)));
        }
    } else {
        // The head survives on both sides; recurse past it.
        let s1 = s.skip(1);
        lemma_chain_wf_skip(s, backing, 1);
        assert(merge_runs(s) == seq![s[0]] + merge_runs(s1));
        assert(t[0] == s[0]);
        assert(t[1] == (if k == 1 {
            m
        } else {
            s[1]
        }));
        assert(t[1].freed == s[1].freed);
        assert(!(t[0].freed && t[1].freed));
        assert(merge_runs(t) == seq![t[0]] + merge_runs(t.skip(1)));
        assert(s1[k - 1] == s[k]);
        assert(s1[k] == s[k + 1]);
        lemma_merge_runs_pair(s1, k - 1, backing);
        assert(t.skip(1) =~= s1.take(k - 1) + seq![merge_pair(s1[k - 1], s1[k])] + s1.skip(k + 1));
    }
}

/// What the live payloads can ever add up to: at most the used part of
/// the chain, which itself stays inside the mapped backing.
pub proof fn lemma_sum_live_le_used(s: Seq<Block>, backing: int)
    requires
        chain_wf(s, backing) || chain_wf1(s, backing),
    ensures
        sum_live(s) <= chain_used(s),
        s.len() > 0 ==> sum_live(s) <= chain_used(s) - s[0].off,
    decreases s.len(),
{
    if s.len() > 0 {
        let t = s.drop_last();
        assert(chain_wf1(t, backing)) by {
            assert forall|i: int| 1 <= i < t.len() implies (#[trigger] t[i].off) == blk_end(
                t[i - 1],
            ) by {
                assert(s[i].off == blk_end(s[i - 1]));
            }
            if t.len() > 0 {
                assert(s[s.len() - 1].off == blk_end(s[s.len() - 2]));
                assert(blk_end(t.last()) == s.last().off);
                assert(s.last().off <= blk_end(s.last()));
            }
        }
        lemma_sum_live_le_used(t, backing);
        if t.len() > 0 {
            assert(s[s.len() - 1].off == blk_end(s[s.len() - 2]));
            assert(chain_used(t) == s.last().off);
        }
    }
}

/// Whether a freed block can serve a request for `size` bytes: either
/// it matches exactly, or it is large enough to split into the request
/// and a non-empty freed remainder behind a fresh header.
pub open spec fn fits(b: Block, size: int) -> bool {
    b.freed && (b.size == size || b.size > size + HEADER_SIZE)
}

/// Index of the first block that can serve a request for `size`
/// bytes, or the chain's length when none can.
pub open spec fn first_fit(s: Seq<Block>, size: int) -> int
    decreases s.len(),
{
    if s.len() == 0 {
        0
    } else if fits(s[0], size) {
        0
    } else {
        1 + first_fit(s.skip(1), size)
    }
}

pub proof fn lemma_first_fit(s: Seq<Block>, size: int)
    ensures
        0 <= first_fit(s, size) <= s.len(),
        first_fit(s, size) < s.len() ==> fits(s[first_fit(s, size)], size),
        forall|i: int| 0 <= i < first_fit(s, size) ==> !fits(s[i], size),
    decreases s.len(),
{
    if s.len() > 0 && !fits(s[0], size) {
        lemma_first_fit(s.skip(1), size);
        assert forall|i: int| 0 <= i < first_fit(s, size) implies !fits(s[i], size) by {
            if i > 0 {
                assert(!fits(s.skip(1)[i - 1], size));
            }
        }
    }
}

/// Index of the block whose header sits at arena offset `off`, or the
/// chain's length when no header does.
pub open spec fn find_off(s: Seq<Block>, off: int) -> int
    decreases s.len(),
{
    if s.len() == 0 {
        0
    } else if s[0].off == off {
        0
    } else {
        1 + find_off(s.skip(1), off)
    }
}

pub proof fn lemma_find_off(s: Seq<Block>, off: int)
    ensures
        0 <= find_off(s, off) <= s.len(),
        find_off(s, off) < s.len() ==> s[find_off(s, off)].off == off,
        forall|i: int| 0 <= i < find_off(s, off) ==> s[i].off != off,
    decreases s.len(),
{
    if s.len() > 0 && s[0].off != off {
        lemma_find_off(s.skip(1), off);
        assert forall|i: int| 0 <= i < find_off(s, off) implies s[i].off != off by {
            if i > 0 {
                assert(s.skip(1)[i - 1].off != off);
            }
        }
    }
}

/// How a `free` or size-query call classified its argument; anything
/// but `Freed` leaves every block untouched and is reported through
/// the kernel's non-fatal diagnostic channel.
#[derive(Debug, Clone, Copy, PartialEq, Eq, Structural)]
pub enum FreeStatus {
    /// The block was live and is now freed and coalesced forward.
    Freed,
    /// The null sentinel; nothing to do.
    NullPointer,
    /// The address lies below the arena's first legal payload.
    BelowBounds,
    /// The address lies above the arena's mapped ceiling.
    AboveBounds,
    /// No allocation header precedes the address.
    BadMagic,
    /// The block behind the address was already freed.
    DoubleFree,
}

/// One allocation arena: a contiguous virtual range starting at
/// `base`, of which the first `backing` bytes are mapped, carrying the
/// header chain as its typed view.
pub struct Arena {
    pub base: usize,
    pub backing: usize,
    pub blocks: Vec<Block>,
}

impl Arena {
    pub open spec fn wf(self) -> bool {
        &&& chain_wf(self.blocks@, self.backing as int)
        &&& self.backing <= 0xffff_ffff
        &&& self.base as int % 16 == 0
        &&& self.base + self.backing <= 0xffff_ffff
    }

    /// A fresh arena over `backing` mapped bytes at `base`.
    pub fn empty(base: usize, backing: usize) -> (r: Arena)
        requires
            base as int % 16 == 0,
            base + backing <= 0xffff_ffff,
        ensures
            r.wf(),
            r.base == base,
            r.backing == backing,
            r.blocks@.len() == 0,
    {
        Arena { base, backing, blocks: Vec::new() }
    }

    /// First offset past the header chain, where a fresh allocation
    /// would carve.
    pub fn used_bytes(&self) -> (r: usize)
        requires
            self.wf(),
        ensures
            r == chain_used(self.blocks@),
            r <= self.backing,
    {
        proof {
            lemma_chain_ends_bounded(self.blocks@, self.backing as int);
        }
        if self.blocks.len() == 0 {
            0
        } else {
            let lb = self.blocks[self.blocks.len() - 1];
            lb.off + HEADER_SIZE + lb.size
        }
    }

    /// Coalesces every run of adjacent freed blocks, as the allocating
    /// scan does on its way through the arena.
    #[verifier::rlimit(100)]
    #[verifier::spinoff_prover]
    fn normalize(&mut self)
        requires
            old(self).wf(),
        ensures
            final(self).wf(),
            final(self).base == old(self).base,
            final(self).backing == old(self).backing,
            final(self).blocks@ == merge_runs(old(self).blocks@),
            normalized(final(self).blocks@),
            chain_used(final(self).blocks@) == chain_used(old(self).blocks@),
            sum_live(final(self).blocks@) == sum_live(old(self).blocks@),
    {
        let mut k: usize = 0;
        while k < self.blocks.len()
            invariant
                self.wf(),
                self.base == old(self).base,
                self.backing == old(self).backing,
                k <= self.blocks@.len(),
                merge_runs(self.blocks@) == merge_runs(old(self).blocks@),
                chain_used(self.blocks@) == chain_used(old(self).blocks@),
                sum_live(self.blocks@) == sum_live(old(self).blocks@),
                forall|i: int|
                    0 <= i < k && i + 1 < self.blocks@.len() ==> !((
                    #[trigger] self.blocks@[i].freed) && self.blocks@[i + 1].freed),
            decreases self.blocks@.len() - k,
        {
            let b = self.blocks[k];
            if b.freed && k + 1 < self.blocks.len() && self.blocks[k + 1].freed {
                let c = self.blocks[k + 1];
                proof {
                    lemma_chain_ends_bounded(self.blocks@, self.backing as int);
                    assert(self.blocks@[k + 1].off == blk_end(self.blocks@[k as int]));
                    assert(blk_end(self.blocks@[k + 1]) <= self.backing);
                    lemma_merge_pair_preserves(self.blocks@, k as int, self.backing as int);
                    lemma_merge_runs_pair(self.blocks@, k as int, self.backing as int);
                }
                let ghost pre = self.blocks@;
                self.blocks[k] = Block {
                    off: b.off,
                    magic: b.magic,
                    size: b.size + HEADER_SIZE + c.size,
                    freed: b.freed,
                };
                self.blocks.remove(k + 1);
                proof {
                    assert(self.blocks@ =~= pre.take(k as int) + seq![
                        merge_pair(pre[k as int], pre[k as int + 1]),
                    ] + pre.skip(k as int + 2));
                }
            } else {
                k += 1;
            }
        }
        proof {
            lemma_merge_runs_normalized(self.blocks@);
        }
    }

    /// Absorbs into the freed block at `k` every freed block
    /// immediately following it: the eager forward half of coalescing.
    #[verifier::rlimit(100)]
    #[verifier::spinoff_prover]
    fn coalesce_forward(&mut self, k: usize)
        requires
            old(self).wf(),
            k < old(self).blocks@.len(),
            old(self).blocks@[k as int].freed,
        ensures
            final(self).wf(),
            final(self).base == old(self).base,
            final(self).backing == old(self).backing,
            final(self).blocks@ == coalesce_at(old(self).blocks@, k as int),
            chain_used(final(self).blocks@) == chain_used(old(self).blocks@),
            sum_live(final(self).blocks@) == sum_live(old(self).blocks@),
    {
        while k < self.blocks.len() - 1 && self.blocks[k + 1].freed
            invariant
                self.wf(),
                self.base == old(self).base,
                self.backing == old(self).backing,
                k < self.blocks@.len(),
                self.blocks@[k as int].freed,
                coalesce_at(self.blocks@, k as int) == coalesce_at(old(self).blocks@, k as int),
                chain_used(self.blocks@) == chain_used(old(self).blocks@),
                sum_live(self.blocks@) == sum_live(old(self).blocks@),
            decreases self.blocks@.len() - k,
        {
            let b = self.blocks[k];
            let c = self.blocks[k + 1];
            proof {
                lemma_chain_ends_bounded(self.blocks@, self.backing as int);
                assert(self.blocks@[k + 1].off == blk_end(self.blocks@[k as int]));
                assert(blk_end(self.blocks@[k + 1]) <= self.backing);
                lemma_merge_pair_preserves(self.blocks@, k as int, self.backing as int);
            }
            let ghost pre = self.blocks@;
            self.blocks[k] = Block {
                off: b.off,
                magic: b.magic,
                size: b.size + HEADER_SIZE + c.size,
                freed: b.freed,
            };
            self.blocks.remove(k + 1);
            proof {
                assert(self.blocks@ =~= pre.take(k as int) + seq![
                    merge_pair(pre[k as int], pre[k as int + 1]),
                ] + pre.skip(k as int + 2));
            }
        }
    }

    /// Marks the freed block at `k`, which matches the request
    /// exactly, as live again.
    #[verifier::rlimit(100)]
    #[verifier::spinoff_prover]
    fn claim_block(&mut self, k: usize)
        requires
            old(self).wf(),
            k < old(self).blocks@.len(),
        ensures
            final(self).wf(),
            final(self).base == old(self).base,
            final(self).backing == old(self).backing,
            final(self).blocks@ == old(self).blocks@.update(
                k as int,
                (Block {
                    off: old(self).blocks@[k as int].off,
                    magic: ALLOC_MAGIC,
                    size: old(self).blocks@[k as int].size,
                    freed: false,
                }),
            ),
    {
        let b = self.blocks[k];
        let ghost s = self.blocks@;
        self.blocks[k] = Block { off: b.off, magic: ALLOC_MAGIC, size: b.size, freed: false };
        proof {
            lemma_chain_wf_like(s, self.blocks@, self.backing as int);
        }
    }

    /// Splits the freed block at `k` into a live block of `size` bytes
    /// and a freed remainder behind a fresh header written at offset
    /// `size` inside the reused block.
    #[verifier::rlimit(100)]
    #[verifier::spinoff_prover]
    fn break_block(&mut self, k: usize, size: usize)
        requires
            old(self).wf(),
            k < old(self).blocks@.len(),
            size > 0,
            size as int % 16 == 0,
            old(self).blocks@[k as int].size > size + HEADER_SIZE,
        ensures
            final(self).wf(),
            final(self).base == old(self).base,
            final(self).backing == old(self).backing,
            final(self).blocks@ == old(self).blocks@.take(k as int) + seq![
                (Block {
                    off: old(self).blocks@[k as int].off,
                    magic: ALLOC_MAGIC,
                    size,
                    freed: false,
                }),
                (Block {
                    off: (old(self).blocks@[k as int].off + HEADER_SIZE + size) as usize,
                    magic: ALLOC_MAGIC,
                    size: (old(self).blocks@[k as int].size - size - HEADER_SIZE) as usize,
                    freed: true,
                }),
            ] + old(self).blocks@.skip(k as int + 1),
    {
        let ghost m = self.blocks@;
        let n = self.blocks.len();
        let b = self.blocks[k];
        proof {
            lemma_chain_ends_bounded(m, self.backing as int);
            assert(blk_end(m[k as int]) <= self.backing);
        }
        let live = Block { off: b.off, magic: ALLOC_MAGIC, size, freed: false };
        let rem = Block {
            off: b.off + HEADER_SIZE + size,
            magic: ALLOC_MAGIC,
            size: b.size - size - HEADER_SIZE,
            freed: true,
        };
        self.blocks[k] = live;
        self.blocks.insert(k + 1, rem);
        proof {
            assert(self.blocks@ =~= m.take(k as int) + seq![live, rem] + m.skip(k as int + 1));
            lemma_chain_wf_split(m, k as int, size as int, self.backing as int);
        }
    }

    /// First-fit allocation of an aligned payload: scans the merged
    /// chain for the first freed block that matches exactly or can be
    /// split, carves fresh space past the chain otherwise, and returns
    /// the payload's address, or `0` when the arena cannot serve the
    /// request within its mapped backing.
    #[verifier::rlimit(100)]
    #[verifier::spinoff_prover]
    pub fn malloc_block(&mut self, size: usize) -> (r: usize)
        requires
            old(self).wf(),
            size > 0,
            size as int % 16 == 0,
            size + HEADER_SIZE <= 0xffff_ffff,
        ensures
            final(self).wf(),
            final(self).base == old(self).base,
            final(self).backing == old(self).backing,
            ({
                let m = merge_runs(old(self).blocks@);
                let kf = first_fit(m, size as int);
                &&& kf < m.len() && m[kf].size == size ==> r == old(self).base + m[kf].off
                    + HEADER_SIZE && final(self).blocks@ == m.update(
                    kf,
                    (Block { off: m[kf].off, magic: ALLOC_MAGIC, size, freed: false }),
                )
                &&& kf < m.len() && m[kf].size != size ==> r == old(self).base + m[kf].off
                    + HEADER_SIZE && final(self).blocks@ == m.take(kf) + seq![
                    (Block { off: m[kf].off, magic: ALLOC_MAGIC, size, freed: false }),
                    (Block {
                        off: (m[kf].off + HEADER_SIZE + size) as usize,
                        magic: ALLOC_MAGIC,
                        size: (m[kf].size - size - HEADER_SIZE) as usize,
                        freed: true,
                    }),
                ] + m.skip(kf + 1)
                &&& kf == m.len() && chain_used(m) + HEADER_SIZE + size <= old(self).backing ==> r
                    == old(self).base + chain_used(m) + HEADER_SIZE && final(self).blocks@ == m
                    + seq![
                    (Block {
                        off: chain_used(m) as usize,
                        magic: ALLOC_MAGIC,
                        size,
                        freed: false,
                    }),
                ]
                &&& kf == m.len() && chain_used(m) + HEADER_SIZE + size > old(self).backing ==> r
                    == 0 && final(self).blocks@ == m
                &&& r != 0 ==> r == old(self).base + HEADER_SIZE + (if kf < m.len() {
                    m[kf].off as int
                } else {
                    chain_used(m)
                })
            }),
    {
        self.normalize();
        let ghost m = self.blocks@;
        proof {
            lemma_first_fit(m, size as int);
            lemma_chain_ends_bounded(m, self.backing as int);
        }
        let mut k: usize = 0;
        while k < self.blocks.len()
            invariant
                self.wf(),
                self.base == old(self).base,
                self.backing == old(self).backing,
                self.blocks@ == m,
                m == merge_runs(old(self).blocks@),
                size > 0,
                size as int % 16 == 0,
                size + HEADER_SIZE <= 0xffff_ffff,
                k <= m.len(),
                forall|i: int| 0 <= i < k ==> !fits(#[trigger] m[i], size as int),
            decreases m.len() - k,
        {
            let b = self.blocks[k];
            if b.freed && (b.size == size || b.size > size + HEADER_SIZE) {
                proof {
                    lemma_first_fit(m, size as int);
                    lemma_chain_ends_bounded(m, self.backing as int);
                    assert(fits(m[k as int], size as int));
                    if first_fit(m, size as int) < k {
                        assert(!fits(m[first_fit(m, size as int)], size as int));
                    }
                    assert(first_fit(m, size as int) == k);
                    assert(blk_end(m[k as int]) <= self.backing);
                }
                if b.size == size {
                    self.claim_block(k);
                    return self.base + b.off + HEADER_SIZE;
                } else {
                    self.break_block(k, size);
                    return self.base + b.off + HEADER_SIZE;
                }
            }
            k += 1;
        }
        let used: usize = if self.blocks.len() == 0 {
            0
        } else {
            let lb = self.blocks[self.blocks.len() - 1];
            proof {
                assert(blk_end(m.last()) <= self.backing);
            }
            lb.off + HEADER_SIZE + lb.size
        };
        proof {
            assert(used == chain_used(m));
            lemma_first_fit(m, size as int);
            assert(first_fit(m, size as int) == m.len());
        }
        if self.backing - used >= HEADER_SIZE + size {
            let fresh = Block { off: used, magic: ALLOC_MAGIC, size, freed: false };
            self.blocks.push(fresh);
            proof {
                assert(self.blocks@ =~= m + seq![fresh]);
                lemma_chain_wf_carve(m, size as int, self.backing as int);
            }
            return self.base + used + HEADER_SIZE;
        }
        0
    }

    /// Frees the block whose payload starts at `address`: the address
    /// is bounds-checked against the arena's legal range, the header
    /// in front of it must be a live allocation, and the freed block
    /// then absorbs any freed blocks immediately following it. Every
    /// rejected call leaves the arena untouched.
    #[verifier::rlimit(100)]
    #[verifier::spinoff_prover]
    pub fn free(&mut self, address: usize) -> (r: FreeStatus)
        requires
            old(self).wf(),
        ensures
            final(self).wf(),
            final(self).base == old(self).base,
            final(self).backing == old(self).backing,
            r != FreeStatus::Freed ==> final(self).blocks@ == old(self).blocks@,
            ({
                let s = old(self).blocks@;
                let off = address - old(self).base - HEADER_SIZE;
                let kf = find_off(s, off);
                &&& address == 0 ==> r == FreeStatus::NullPointer
                &&& address != 0 && address < old(self).base + HEADER_SIZE ==> r
                    == FreeStatus::BelowBounds
                &&& address >= old(self).base + HEADER_SIZE && address > old(self).base
                    + old(self).backing ==> r == FreeStatus::AboveBounds
                &&& old(self).base + HEADER_SIZE <= address <= old(self).base
                    + old(self).backing ==> {
                    &&& kf == s.len() ==> r == FreeStatus::BadMagic
                    &&& kf < s.len() && s[kf].freed ==> r == FreeStatus::DoubleFree
                    &&& kf < s.len() && !s[kf].freed ==> r == FreeStatus::Freed
                        && final(self).blocks@ == coalesce_at(
                        s.update(
                            kf,
                            (Block {
                                off: s[kf].off,
                                magic: ALLOC_MAGIC,
                                size: s[kf].size,
                                freed: true,
                            }),
                        ),
                        kf,
                    ) && sum_live(final(self).blocks@) == sum_live(s) - s[kf].size
                }
            }),
    {
        if address == 0 {
            return FreeStatus::NullPointer;
        }
        if address < HEADER_SIZE || address - HEADER_SIZE < self.base {
            return FreeStatus::BelowBounds;
        }
        if address > self.base + self.backing {
            return FreeStatus::AboveBounds;
        }
        let off = address - self.base - HEADER_SIZE;
        let ghost s = self.blocks@;
        let mut i: usize = 0;
        while i < self.blocks.len()
            invariant
                self.wf(),
                self.blocks@ == s,
                s == old(self).blocks@,
                self.base == old(self).base,
                self.backing == old(self).backing,
                off == address - self.base - HEADER_SIZE,
                old(self).base + HEADER_SIZE <= address <= old(self).base + old(self).backing,
                i <= s.len(),
                forall|j: int| 0 <= j < i ==> (#[trigger] s[j].off) != off,
            decreases s.len() - i,
        {
            let b = self.blocks[i];
            if b.off == off {
                proof {
                    lemma_find_off(s, off as int);
                    if find_off(s, off as int) < i {
                        assert(s[find_off(s, off as int)].off == off);
                    }
                    assert(find_off(s, off as int) == i);
                }
                if b.freed {
                    return FreeStatus::DoubleFree;
                }
                let freed_block = Block {
                    off: b.off,
                    magic: ALLOC_MAGIC,
                    size: b.size,
                    freed: true,
                };
                self.blocks[i] = freed_block;
                proof {
                    lemma_chain_wf_like(s, self.blocks@, self.backing as int);
                    lemma_sum_live_update(s, i as int, freed_block);
                    assert(self.blocks@ =~= s.update(i as int, freed_block));
                }
                self.coalesce_forward(i);
                return FreeStatus::Freed;
            }
            i += 1;
        }
        proof {
            lemma_find_off(s, off as int);
        }
        FreeStatus::BadMagic
    }

    /// Payload size recorded for the live block at `address`, or `0`
    /// with a diagnostic when the address is out of bounds, carries no
    /// valid header, or was already freed.
    pub fn size_of(&self, address: usize) -> (r: usize)
        requires
            self.wf(),
        ensures
            ({
                let s = self.blocks@;
                let off = address - self.base - HEADER_SIZE;
                let kf = find_off(s, off);
                if address == 0 || address < self.base + HEADER_SIZE || address > self.base
                    + self.backing {
                    r == 0
                } else if kf < s.len() && !s[kf].freed {
                    r == s[kf].size
                } else {
                    r == 0
                }
            }),
    {
        if address == 0 {
            return 0;
        }
        if address < HEADER_SIZE || address - HEADER_SIZE < self.base {
            return 0;
        }
        if address > self.base + self.backing {
            return 0;
        }
        let off = address - self.base - HEADER_SIZE;
        let ghost s = self.blocks@;
        let mut i: usize = 0;
        while i < self.blocks.len()
            invariant
                self.wf(),
                self.blocks@ == s,
                off == address - self.base - HEADER_SIZE,
                self.base + HEADER_SIZE <= address <= self.base + self.backing,
                i <= s.len(),
                forall|j: int| 0 <= j < i ==> (#[trigger] s[j].off) != off,
            decreases s.len() - i,
        {
            let b = self.blocks[i];
            if b.off == off {
                proof {
                    lemma_find_off(s, off as int);
                    if find_off(s, off as int) < i {
                        assert(s[find_off(s, off as int)].off == off);
                    }
                    assert(find_off(s, off as int) == i);
                }
                if b.freed {
                    return 0;
                }
                return b.size;
            }
            i += 1;
        }
        proof {
            lemma_find_off(s, off as int);
        }
        0
    }
}

/// Splitting a large-enough freed block leaves the chain well formed.
#[verifier::rlimit(100)]
#[verifier::spinoff_prover]
proof fn lemma_chain_wf_split(m: Seq<Block>, k: int, size: int, backing: int)
    requires
        chain_wf(m, backing),
        backing <= 0xffff_ffff,
        0 <= k < m.len(),
        size > 0,
        size % 16 == 0,
        m[k].size > size + HEADER_SIZE,
    ensures
        chain_wf(
            m.take(k) + seq![
                (Block { off: m[k].off, magic: ALLOC_MAGIC, size: size as usize, freed: false }),
                (Block {
                    off: (m[k].off + HEADER_SIZE + size) as usize,
                    magic: ALLOC_MAGIC,
                    size: (m[k].size - size - HEADER_SIZE) as usize,
                    freed: true,
                }),
            ] + m.skip(k + 1),
            backing,
        ),
{
    lemma_chain_ends_bounded(m, backing);
    assert(blk_end(m[k]) <= backing);
    assert(0 <= size <= backing);
    let live = Block { off: m[k].off, magic: ALLOC_MAGIC, size: size as usize, freed: false };
    let rem = Block {
        off: (m[k].off + HEADER_SIZE + size) as usize,
        magic: ALLOC_MAGIC,
        size: (m[k].size - size - HEADER_SIZE) as usize,
        freed: true,
    };
    let t = m.take(k) + seq![live, rem] + m.skip(k + 1);
    assert(blk_end(rem) == blk_end(m[k]));
    assert forall|i: int| 1 <= i < t.len() implies (#[trigger] t[i].off) == blk_end(t[i - 1]) by {
        if i < k {
            assert(m[i].off == blk_end(m[i - 1]));
        } else if i == k {
            if k > 0 {
                assert(m[i].off == blk_end(m[i - 1]));
            }
        } else if i == k + 1 {
        } else if i == k + 2 {
            assert(m[k + 1].off == blk_end(m[k]));
        } else {
            assert(m[i - 1].off == blk_end(m[i - 2]));
        }
    }
    assert forall|i: int|
        0 <= i < t.len() implies (#[trigger] t[i].magic) == ALLOC_MAGIC && t[i].size > 0
        && t[i].size % 16 == 0 by {
        if i < k {
            assert(m[i].magic == ALLOC_MAGIC);
        } else if i <= k + 1 {
            assert(m[k].magic == ALLOC_MAGIC);
        } else {
            assert(m[i - 1].magic == ALLOC_MAGIC);
        }
    }
    if k + 2 == t.len() {
        assert(t.last() == rem);
    } else {
        assert(t.last() == m.last());
    }
    if k == 0 {
        assert(t[0] == live);
    } else {
        assert(t[0] == m[0]);
    }
    assert(t[0].off == 0);
    assert(blk_end(t.last()) <= backing);
    assert(chain_wf(t, backing));
}

/// Carving a fresh block at the chain's end leaves it well formed.
#[verifier::rlimit(100)]
#[verifier::spinoff_prover]
proof fn lemma_chain_wf_carve(m: Seq<Block>, size: int, backing: int)
    requires
        chain_wf(m, backing),
        backing <= 0xffff_ffff,
        size > 0,
        size % 16 == 0,
        chain_used(m) + HEADER_SIZE + size <= backing,
    ensures
        chain_wf(
            m + seq![
                (Block {
                    off: chain_used(m) as usize,
                    magic: ALLOC_MAGIC,
                    size: size as usize,
                    freed: false,
                }),
            ],
            backing,
        ),
{
    lemma_chain_ends_bounded(m, backing);
    if m.len() > 0 {
        assert(0 <= chain_used(m) <= backing);
    }
    assert(0 <= size <= backing);
    let fresh = Block {
        off: chain_used(m) as usize,
        magic: ALLOC_MAGIC,
        size: size as usize,
        freed: false,
    };
    let t = m + seq![fresh];
    assert forall|i: int| 1 <= i < t.len() implies (#[trigger] t[i].off) == blk_end(t[i - 1]) by {
        if i < t.len() - 1 {
            assert(m[i].off == blk_end(m[i - 1]));
        } else {
            assert(t[i] == fresh);
            assert(t[i - 1] == m.last());
            assert(fresh.off == chain_used(m));
        }
    }
    assert forall|i: int|
        0 <= i < t.len() implies (#[trigger] t[i].magic) == ALLOC_MAGIC && t[i].size > 0
        && t[i].size % 16 == 0 by {
        if i < t.len() - 1 {
            assert(m[i].magic == ALLOC_MAGIC);
        } else {
            assert(t[i] == fresh);
        }
    }
}

/// Replacing a block by one with the same offset and size keeps the
/// chain well formed.
proof fn lemma_chain_wf_like(s: Seq<Block>, t: Seq<Block>, backing: int)
    requires
        chain_wf(s, backing),
        t.len() == s.len(),
        forall|i: int|
            0 <= i < t.len() ==> (#[trigger] t[i].off) == s[i].off && t[i].size == s[i].size
                && t[i].magic == ALLOC_MAGIC,
    ensures
        chain_wf(t, backing),
{
    assert forall|i: int| 1 <= i < t.len() implies (#[trigger] t[i].off) == blk_end(t[i - 1]) by {
        assert(s[i].off == blk_end(s[i - 1]));
        assert(t[i - 1].off == s[i - 1].off && t[i - 1].size == s[i - 1].size);
    }
    assert forall|i: int|
        0 <= i < t.len() implies (#[trigger] t[i].magic) == ALLOC_MAGIC && t[i].size > 0
        && t[i].size % 16 == 0 by {
        assert(t[i].off == s[i].off && t[i].size == s[i].size && t[i].magic == ALLOC_MAGIC);
        assert(s[i].magic == ALLOC_MAGIC);
    }
    if t.len() > 0 {
        assert(t[0].off == s[0].off);
        assert(blk_end(t.last()) == blk_end(s.last()));
    }
}

/// How replacing one block moves the live-payload sum.
proof fn lemma_sum_live_update(s: Seq<Block>, k: int, b: Block)
    requires
        0 <= k < s.len(),
    ensures
        sum_live(s.update(k, b)) == sum_live(s) - (if s[k].freed {
            0int
        } else {
            s[k].size as int
        }) + (if b.freed {
            0int
        } else {
            b.size as int
        }),
{
    let t = s.update(k, b);
    lemma_sum_live_concat(s.take(k) + seq![s[k]], s.skip(k + 1));
    lemma_sum_live_concat(s.take(k), seq![s[k]]);
    assert((s.take(k) + seq![s[k]]) + s.skip(k + 1) =~= s);
    lemma_sum_live_concat(s.take(k) + seq![b], s.skip(k + 1));
    lemma_sum_live_concat(s.take(k), seq![b]);
    assert((s.take(k) + seq![b]) + s.skip(k + 1) =~= t);
    assert(sum_live(seq![s[k]]) == if s[k].freed {
        0int
    } else {
        s[k].size as int
    }) by {
        reveal_with_fuel(sum_live, 2);
        assert(seq![s[k]].drop_last() =~= Seq::<Block>::empty());
        assert(seq![s[k]].last() == s[k]);
    }
    assert(sum_live(seq![b]) == if b.freed {
        0int
    } else {
        b.size as int
    }) by {
        reveal_with_fuel(sum_live, 2);
        assert(seq![b].drop_last() =~= Seq::<Block>::empty());
        assert(seq![b].last() == b);
    }
}


/// Coalescing law, on the canonical shape: in an arena holding a live
/// block, two adjacent freed blocks, and a live block, an allocating
/// scan merges the freed pair, and a request for their joint span plus
/// one header fits that merged block first and exactly. Through the
/// allocation contracts, such a request is served at the first freed
/// block's own offset, reusing the merged span; in particular it needs
/// no new backing frames.
pub proof fn lemma_coalesced_reuse(a: Block, b: Block, c: Block, d: Block, backing: int, size: int)
    requires
        chain_wf(seq![a, b, c, d], backing),
        backing <= 0xffff_ffff,
        !a.freed,
        b.freed,
        c.freed,
        !d.freed,
        size == b.size + HEADER_SIZE + c.size,
    ensures
        merge_runs(seq![a, b, c, d]) == seq![a, merge_pair(b, c), d],
        first_fit(merge_runs(seq![a, b, c, d]), size) == 1,
        merge_runs(seq![a, b, c, d])[1].off == b.off,
        merge_runs(seq![a, b, c, d])[1].size == size,
        merge_runs(seq![a, b, c, d])[1].freed,
{
    let s = seq![a, b, c, d];
    lemma_chain_ends_bounded(s, backing);
    assert(blk_end(s[2]) <= backing);
    assert(s[1].off == blk_end(s[0]));
    assert(s[2].off == blk_end(s[1]));
    let m = merge_pair(b, c);
    assert(m.size == size);
    assert(merge_runs(s) == seq![a] + merge_runs(s.skip(1)));
    assert(s.skip(1) =~= seq![b, c, d]);
    let t = seq![b, c, d];
    assert(merge_runs(t) == merge_runs(seq![merge_pair(b, c)] + t.skip(2)));
    assert(seq![merge_pair(b, c)] + t.skip(2) =~= seq![m, d]);
    let u = seq![m, d];
    assert(!m.freed || !d.freed);
    assert(merge_runs(u) == seq![m] + merge_runs(u.skip(1)));
    assert(u.skip(1) =~= seq![d]);
    assert(merge_runs(seq![d]) == seq![d] + merge_runs(seq![d].skip(1)));
    assert(seq![d].skip(1) =~= Seq::<Block>::empty());
    assert(merge_runs(Seq::<Block>::empty()) =~= Seq::<Block>::empty());
    assert(merge_runs(seq![d]) =~= seq![d]);
    assert(merge_runs(s) =~= seq![a, m, d]);
    let r = seq![a, m, d];
    assert(!fits(r[0], size));
    assert(fits(r[1], size));
    assert(first_fit(r, size) == 1) by {
        assert(r.skip(1) =~= seq![m, d]);
        assert(fits(seq![m, d][0], size));
        assert(first_fit(seq![m, d], size) == 0);
    }
}

/// Offsets strictly increase along a well-formed chain.
pub proof fn lemma_chain_off_mono(s: Seq<Block>, backing: int, i: int, j: int)
    requires
        chain_wf1(s, backing),
        0 <= i < j < s.len(),
    ensures
        s[i].off < s[j].off,
    decreases j - i,
{
    assert(s[i + 1].off == blk_end(s[i]));
    if i + 1 < j {
        lemma_chain_off_mono(s, backing, i + 1, j);
    }
}

/// `find_off` recovers a block's own index: offsets are unique.
pub proof fn lemma_find_off_at(s: Seq<Block>, backing: int, k: int)
    requires
        chain_wf1(s, backing),
        0 <= k < s.len(),
    ensures
        find_off(s, s[k].off as int) == k,
{
    lemma_find_off(s, s[k].off as int);
    let kf = find_off(s, s[k].off as int);
    if kf < k {
        assert(s[kf].off == s[k].off);
        lemma_chain_off_mono(s, backing, kf, k);
    }
    if kf > k {
        assert(s[k].off != s[k].off);
    }
}

/// Forward coalescing keeps every block in front of `k`, and keeps the
/// absorbing block's offset and freed state.
pub proof fn lemma_coalesce_at_prefix(s: Seq<Block>, k: int)
    requires
        0 <= k < s.len(),
    ensures
        k < coalesce_at(s, k).len(),
        coalesce_at(s, k).len() <= s.len(),
        forall|i: int| 0 <= i < k ==> (#[trigger] coalesce_at(s, k)[i]) == s[i],
        coalesce_at(s, k)[k].off == s[k].off,
        coalesce_at(s, k)[k].freed == s[k].freed,
    decreases s.len(),
{
    if 0 <= k && k + 1 < s.len() && s[k].freed && s[k + 1].freed {
        let t = s.take(k) + seq![merge_pair(s[k], s[k + 1])] + s.skip(k + 2);
        lemma_coalesce_at_prefix(t, k);
        assert(t[k] == merge_pair(s[k], s[k + 1]));
        assert forall|i: int| 0 <= i < k implies (#[trigger] coalesce_at(s, k)[i]) == s[i] by {
            assert(coalesce_at(t, k)[i] == t[i]);
            assert(t[i] == s[i]);
        }
    }
}

/// However allocations and frees interleave, the live payloads of one
/// arena never add up past its currently mapped backing: every
/// operation preserves well-formedness, and well-formedness alone
/// bounds the sum.
pub proof fn lemma_live_sum_bounded(a: Arena)
    requires
        a.wf(),
    ensures
        sum_live(a.blocks@) <= a.backing,
{
    lemma_sum_live_le_used(a.blocks@, a.backing as int);
    lemma_chain_ends_bounded(a.blocks@, a.backing as int);
    if a.blocks@.len() == 0 {
        assert(sum_live(a.blocks@) == 0);
    }
}

/// Round trip: a successful allocation of `size` bytes yields a live
/// block whose recorded size is the 16-byte-aligned request — at least
/// `size` — and is what the size query finds; after freeing it, the
/// block behind the same address is freed, so the size query reports
/// zero.
pub proof fn lemma_alloc_roundtrip(mid: Arena, post: Arena, size: usize, r: usize, kx: int)
    requires
        mid.wf(),
        post.wf(),
        size > 0,
        size + HEADER_SIZE <= 0xffff_ffff,
        0 <= kx < mid.blocks@.len(),
        mid.blocks@[kx] == (Block {
            off: (r - mid.base - HEADER_SIZE) as usize,
            magic: ALLOC_MAGIC,
            size: align_up(size as int, 16) as usize,
            freed: false,
        }),
        r == mid.base + mid.blocks@[kx].off + HEADER_SIZE,
        post.base == mid.base,
        post.backing == mid.backing,
        post.blocks@ == coalesce_at(
            mid.blocks@.update(
                kx,
                (Block {
                    off: mid.blocks@[kx].off,
                    magic: ALLOC_MAGIC,
                    size: mid.blocks@[kx].size,
                    freed: true,
                }),
            ),
            kx,
        ),
    ensures
        mid.base + HEADER_SIZE <= r <= mid.base + mid.backing,
        find_off(mid.blocks@, r - mid.base - HEADER_SIZE) == kx,
        !mid.blocks@[kx].freed,
        mid.blocks@[kx].size >= size,
        find_off(post.blocks@, r - mid.base - HEADER_SIZE) == kx,
        post.blocks@[kx].freed,
{
    let off = r - mid.base - HEADER_SIZE;
    lemma_chain_ends_bounded(mid.blocks@, mid.backing as int);
    assert(blk_end(mid.blocks@[kx]) <= mid.backing);
    assert(chain_wf1(mid.blocks@, mid.backing as int));
    lemma_find_off_at(mid.blocks@, mid.backing as int, kx);
    assert(align_up(size as int, 16) >= size) by {
        vstd::arithmetic::div_mod::lemma_fundamental_div_mod(size + 16 - 1, 16);
        vstd::arithmetic::div_mod::lemma_mod_bound(size + 16 - 1, 16);
    }
    let u = mid.blocks@.update(
        kx,
        (Block {
            off: mid.blocks@[kx].off,
            magic: ALLOC_MAGIC,
            size: mid.blocks@[kx].size,
            freed: true,
        }),
    );
    lemma_coalesce_at_prefix(u, kx);
    assert(post.blocks@[kx].off == u[kx].off);
    assert(post.blocks@[kx].freed);
    lemma_chain_wf_like(mid.blocks@, u, mid.backing as int);
    lemma_find_off(post.blocks@, off as int);
    let kf = find_off(post.blocks@, off as int);
    if kf < kx {
        assert(post.blocks@[kf] == u[kf]);
        assert(u[kf].off == mid.blocks@[kf].off);
        lemma_chain_off_mono(mid.blocks@, mid.backing as int, kf, kx);
        assert(false);
    }
    if kf > kx {
        assert(post.blocks@[kx].off == off);
        assert(false);
    }
    assert(kf == kx);
}

/// Why a growth attempt of `pages` frames can come back empty-handed,
/// stated over the state it leaves behind: the 32-bit virtual ceiling
/// is reached; no contiguous run of `pages` free frames exists in the
/// user window; the kernel window has no free frame left for a page
/// table; or the frames found sit exactly at the next mapping target,
/// where an identity mapping would desynchronize the heap bookkeeping
/// (they are then already locked in the final state).
pub open spec fn expand_failure_cause(m: MemoryManager, pages: int) -> bool {
    ||| m.pt.last_mapped + (pages + 2) * PAGE_SIZE > 0xffc0_0000
    ||| forall|i: int|
        m.frames.candidate(MemorySpace::User, pages, i) ==> !run_free(
            m.frames.bitmap@,
            i,
            pages,
        )
    ||| forall|i: int| m.frames.candidate(MemorySpace::Kernel, 1, i) ==> m.frames.bitmap@[i]
    ||| forall|j: int|
        (m.pt.last_mapped + PAGE_SIZE) / PAGE_SIZE as int <= j < (m.pt.last_mapped + PAGE_SIZE)
            / PAGE_SIZE as int + pages ==> m.frames.bitmap@[j]
}

/// The first `k` pages past the old mapping ceiling `lm0` are present,
/// and each that was not already mapped in `pt0` translates to its
/// frame in the contiguous run based at physical address `base`.
pub open spec fn expand_leaves_mapped(
    pt: pagetable::Manager,
    pt0: pagetable::Manager,
    lm0: int,
    k: int,
    base: int,
) -> bool {
    forall|u: int|
        lm0 + PAGE_SIZE <= u <= lm0 + k * PAGE_SIZE && u % PAGE_SIZE as int == 0 ==> (
        #[trigger] pt.mapping_present(u)) && (!pt0.mapping_present(u) ==> pt.translation(u) == (
        base + (u - lm0 - PAGE_SIZE)) as u32)
}

/// Every page above `cut` keeps in `pt` the presence and translation it
/// had in `pt0`.
pub open spec fn expand_leaves_kept(pt: pagetable::Manager, pt0: pagetable::Manager, cut: int) -> bool {
    forall|u: int|
        cut < u < 0x1_0000_0000 && u % PAGE_SIZE as int == 0 && pdi_of(u) != 1023 ==> (
        #[trigger] pt.mapping_present(u)) == pt0.mapping_present(u) && (pt0.mapping_present(u)
            ==> pt.translation(u) == pt0.translation(u))
}

/// What a successful growth by `pages` frames did, from state `m0` to
/// `m1`: the first-fit run of free user frames was chosen, and every
/// page between the old and the new mapping ceiling is now present,
/// each previously unmapped one translating to its frame of that run.
pub open spec fn expand_grown(m0: MemoryManager, m1: MemoryManager, pages: int) -> bool {
    exists|f: int|
        {
            &&& m0.frames.candidate(MemorySpace::User, pages, f)
            &&& run_free(m0.frames.bitmap@, f, pages)
            &&& forall|q: int|
                m0.frames.candidate(MemorySpace::User, pages, q) && q < f ==> !run_free(
                    m0.frames.bitmap@,
                    q,
                    pages,
                )
            &&& forall|u: int|
                m0.pt.last_mapped + PAGE_SIZE <= u <= m0.pt.last_mapped + pages * PAGE_SIZE && u
                    % PAGE_SIZE as int == 0 ==> (#[trigger] m1.pt.mapping_present(u)) && (
                !m0.pt.mapping_present(u) ==> m1.pt.translation(u) == (f * PAGE_SIZE + (u
                    - m0.pt.last_mapped - PAGE_SIZE)) as u32)
        }
}

/// Frames per growth round for a user-arena request of `size` bytes,
/// as the growable arena expands on exhaustion.
pub open spec fn vmalloc_pages(size: int) -> int {
    if (HEADER_SIZE + align_up(size, 16)) / PAGE_SIZE as int >= 1 {
        (HEADER_SIZE + align_up(size, 16)) / PAGE_SIZE as int
    } else {
        1
    }
}

/// The memory manager: the one explicitly-owned value holding the
/// physical frame allocator, the page-table manager and both heap
/// arenas, threaded by reference through every allocation call.
pub struct MemoryManager {
    pub frames: pageframe::Allocator,
    pub pt: pagetable::Manager,
    pub kernel_heap: Arena,
    pub user_heap: Arena,
}

impl MemoryManager {
    pub open spec fn wf(self) -> bool {
        &&& self.frames.wf()
        &&& self.pt.wf()
        &&& self.kernel_heap.wf()
        &&& self.user_heap.wf()
        &&& KERNEL_SPACE_START + KERNEL_SPACE_RANGE <= self.frames.bitmap.size
        &&& self.kernel_heap.base + self.kernel_heap.backing == PAGE_SIZE * (KERNEL_SPACE_START
            + KERNEL_SPACE_RANGE)
        &&& self.user_heap.base == self.pt.heap_start
        &&& self.user_heap.base == PAGE_SIZE * (KERNEL_SPACE_START + KERNEL_SPACE_RANGE)
        &&& self.user_heap.backing == self.pt.last_mapped + PAGE_SIZE - self.pt.heap_start
        &&& self.pt.heap_start <= self.pt.last_mapped
        &&& self.pt.last_mapped as int % PAGE_SIZE as int == 0
        &&& self.pt.heap_start as int % PAGE_SIZE as int == 0
        &&& self.pt.last_mapped + 2 * PAGE_SIZE <= 0xffc0_0000
    }

    /// Allocates `size` bytes from the bounded kernel arena: the size
    /// is aligned up to 16 bytes and served first-fit from the merged
    /// header chain, splitting or carving as needed. Returns the
    /// payload address, or `0` for a zero-size request or when the
    /// kernel arena is out of memory; the arena never grows.
    pub fn kmalloc(&mut self, size: usize) -> (r: usize)
        requires
            old(self).wf(),
            size + 2 * HEADER_SIZE <= 0xffff_ffff,
        ensures
            final(self).wf(),
            final(self).frames == old(self).frames,
            final(self).pt == old(self).pt,
            final(self).user_heap == old(self).user_heap,
            final(self).kernel_heap.base == old(self).kernel_heap.base,
            final(self).kernel_heap.backing == old(self).kernel_heap.backing,
            size == 0 ==> r == 0 && final(self).kernel_heap == old(self).kernel_heap,
            size != 0 ==> ({
                let want = align_up(size as int, 16);
                let m = merge_runs(old(self).kernel_heap.blocks@);
                let kf = first_fit(m, want);
                &&& kf < m.len() && m[kf].size == want ==> r == old(self).kernel_heap.base
                    + m[kf].off + HEADER_SIZE && final(self).kernel_heap.blocks@ == m.update(
                    kf,
                    (Block {
                        off: m[kf].off,
                        magic: ALLOC_MAGIC,
                        size: want as usize,
                        freed: false,
                    }),
                )
                &&& kf < m.len() && m[kf].size != want ==> r == old(self).kernel_heap.base
                    + m[kf].off + HEADER_SIZE && final(self).kernel_heap.blocks@ == m.take(kf)
                    + seq![
                    (Block {
                        off: m[kf].off,
                        magic: ALLOC_MAGIC,
                        size: want as usize,
                        freed: false,
                    }),
                    (Block {
                        off: (m[kf].off + HEADER_SIZE + want) as usize,
                        magic: ALLOC_MAGIC,
                        size: (m[kf].size - want - HEADER_SIZE) as usize,
                        freed: true,
                    }),
                ] + m.skip(kf + 1)
                &&& kf == m.len() && chain_used(m) + HEADER_SIZE + want <= old(
                    self,
                ).kernel_heap.backing ==> r == old(self).kernel_heap.base + chain_used(m)
                    + HEADER_SIZE && final(self).kernel_heap.blocks@ == m + seq![
                    (Block {
                        off: chain_used(m) as usize,
                        magic: ALLOC_MAGIC,
                        size: want as usize,
                        freed: false,
                    }),
                ]
                &&& kf == m.len() && chain_used(m) + HEADER_SIZE + want > old(
                    self,
                ).kernel_heap.backing ==> r == 0 && final(self).kernel_heap.blocks@ == m
            }),
    {
        if size == 0 {
            return 0;
        }
        proof {
            assert(0x10usize == 1usize << 4usize) by (bit_vector);
        }
        let size = ferramenta::align(size, 0x10);
        self.kernel_heap.malloc_block(size)
    }

    /// `kmalloc` for zero-initialized memory. The arena model holds no
    /// payload bytes, so clearing them is the concern of the physical
    /// memory behind the returned address; the allocation itself is
    /// identical.
    pub fn kzalloc(&mut self, size: usize) -> (r: usize)
        requires
            old(self).wf(),
            size + 3 * HEADER_SIZE <= 0xffff_ffff,
        ensures
            final(self).wf(),
            final(self).frames == old(self).frames,
            final(self).pt == old(self).pt,
            final(self).user_heap == old(self).user_heap,
            final(self).kernel_heap.base == old(self).kernel_heap.base,
            final(self).kernel_heap.backing == old(self).kernel_heap.backing,
            size == 0 ==> r == 0 && final(self).kernel_heap == old(self).kernel_heap,
            size != 0 ==> ({
                let want = align_up(size as int, 16);
                let m = merge_runs(old(self).kernel_heap.blocks@);
                let kf = first_fit(m, want);
                &&& kf < m.len() ==> r == old(self).kernel_heap.base + m[kf].off + HEADER_SIZE
                &&& kf == m.len() && chain_used(m) + HEADER_SIZE + want <= old(
                    self,
                ).kernel_heap.backing ==> r == old(self).kernel_heap.base + chain_used(m)
                    + HEADER_SIZE && final(self).kernel_heap.blocks@ == m + seq![
                    (Block {
                        off: chain_used(m) as usize,
                        magic: ALLOC_MAGIC,
                        size: want as usize,
                        freed: false,
                    }),
                ]
                &&& kf == m.len() && chain_used(m) + HEADER_SIZE + want > old(
                    self,
                ).kernel_heap.backing ==> r == 0 && final(self).kernel_heap.blocks@ == m
            }),
    {
        if size == 0 {
            return self.kmalloc(0);
        }
        proof {
            assert(0x10usize == 1usize << 4usize) by (bit_vector);
        }
        let size2 = ferramenta::align(size, 0x10);
        proof {
            ferramenta::lemma_align_up_unique(size2 as int, 16, size2 as int);
        }
        self.kmalloc(size2)
    }

    /// Frees a kernel-arena allocation: the address is validated
    /// against the arena bounds and the header's sentinel, a double
    /// free is rejected, and the freed block absorbs any freed blocks
    /// immediately following it. The returned status is the caller's
    /// diagnostic; every rejection leaves the arena untouched.
    pub fn kfree(&mut self, address: usize) -> (r: FreeStatus)
        requires
            old(self).wf(),
        ensures
            final(self).wf(),
            final(self).frames == old(self).frames,
            final(self).pt == old(self).pt,
            final(self).user_heap == old(self).user_heap,
            final(self).kernel_heap.base == old(self).kernel_heap.base,
            final(self).kernel_heap.backing == old(self).kernel_heap.backing,
            r != FreeStatus::Freed ==> final(self).kernel_heap.blocks@ == old(
                self,
            ).kernel_heap.blocks@,
            ({
                let s = old(self).kernel_heap.blocks@;
                let off = address - old(self).kernel_heap.base - HEADER_SIZE;
                let kf = find_off(s, off);
                &&& address == 0 ==> r == FreeStatus::NullPointer
                &&& address != 0 && address < old(self).kernel_heap.base + HEADER_SIZE ==> r
                    == FreeStatus::BelowBounds
                &&& address >= old(self).kernel_heap.base + HEADER_SIZE && address > old(
                    self,
                ).kernel_heap.base + old(self).kernel_heap.backing ==> r == FreeStatus::AboveBounds
                &&& old(self).kernel_heap.base + HEADER_SIZE <= address <= old(
                    self,
                ).kernel_heap.base + old(self).kernel_heap.backing ==> {
                    &&& kf == s.len() ==> r == FreeStatus::BadMagic
                    &&& kf < s.len() && s[kf].freed ==> r == FreeStatus::DoubleFree
                    &&& kf < s.len() && !s[kf].freed ==> r == FreeStatus::Freed
                        && final(self).kernel_heap.blocks@ == coalesce_at(
                        s.update(
                            kf,
                            (Block {
                                off: s[kf].off,
                                magic: ALLOC_MAGIC,
                                size: s[kf].size,
                                freed: true,
                            }),
                        ),
                        kf,
                    ) && sum_live(final(self).kernel_heap.blocks@) == sum_live(s) - s[kf].size
                }
            }),
    {
        self.kernel_heap.free(address)
    }

    /// Payload size of a live kernel-arena allocation, or `0` with a
    /// diagnostic for an invalid or already-freed address.
    pub fn ksize(&self, address: usize) -> (r: usize)
        requires
            self.wf(),
        ensures
            ({
                let s = self.kernel_heap.blocks@;
                let off = address - self.kernel_heap.base - HEADER_SIZE;
                let kf = find_off(s, off);
                if address == 0 || address < self.kernel_heap.base + HEADER_SIZE || address
                    > self.kernel_heap.base + self.kernel_heap.backing {
                    r == 0
                } else if kf < s.len() && !s[kf].freed {
                    r == s[kf].size
                } else {
                    r == 0
                }
            }),
    {
        self.kernel_heap.size_of(address)
    }

    /// Requests a batch of contiguous frames and maps them one page at
    /// a time past `last_mapped`, growing the user arena's backing.
    /// Fails without partial frame locking when no contiguous run is
    /// free; a failure while mapping leaves the manager consistent
    /// with whatever was mapped so far.
    #[verifier::rlimit(100)]
    #[verifier::spinoff_prover]
    fn expand_heap(&mut self, pages: usize) -> (ok: bool)
        requires
            old(self).wf(),
            1 <= pages <= 0xf_ffff,
        ensures
            final(self).wf(),
            final(self).kernel_heap == old(self).kernel_heap,
            final(self).user_heap.base == old(self).user_heap.base,
            final(self).user_heap.blocks@ == old(self).user_heap.blocks@,
            final(self).user_heap.backing >= old(self).user_heap.backing,
            ok ==> final(self).user_heap.backing == old(self).user_heap.backing + pages
                * PAGE_SIZE,
            final(self).frames.bitmap.size == old(self).frames.bitmap.size,
            final(self).frames.reserved_mem == old(self).frames.reserved_mem,
            final(self).frames.is_initialized() == old(self).frames.is_initialized(),
            forall|j: int|
                0 <= j < old(self).frames.bitmap@.len() && old(self).frames.bitmap@[j]
                    ==> final(self).frames.bitmap@[j],
            !ok ==> expand_failure_cause(*final(self), pages as int),
            ok ==> final(self).pt.last_mapped == old(self).pt.last_mapped + pages * PAGE_SIZE,
            ok ==> expand_grown(*old(self), *final(self), pages as int),
    {
        if pages * PAGE_SIZE > 0xffc0_0000 - 2 * PAGE_SIZE - self.pt.last_mapped {
            return false;
        }
        let new_page = self.frames.request_free_pages(pages, MemorySpace::User);
        if new_page == 0 {
            return false;
        }
        proof {
            let f: int = new_page as int / PAGE_SIZE as int;
            let sz: int = old(self).frames.bitmap.size as int;
            assert(f + pages <= sz);
            assert((f + pages) * 4096 <= sz * 4096 && sz * 4096 <= 0xf_ffff * 4096)
                by (nonlinear_arith)
                requires
                    f + pages <= sz,
                    sz <= 0xf_ffff,
            {
            }
            vstd::arithmetic::div_mod::lemma_fundamental_div_mod(new_page as int, PAGE_SIZE as int);
            assert(new_page == 4096 * f);
            assert(new_page + pages * 4096 <= 0xffff_f000) by (nonlinear_arith)
                requires
                    new_page == 4096 * f,
                    (f + pages) * 4096 <= 0xf_ffff * 4096,
            {
            }
        }
        let ghost base_frames = self.frames;
        let mut i: usize = 0;
        while i < pages
            invariant
                self.wf(),
                i <= pages,
                pages <= 0xf_ffff,
                self.kernel_heap == old(self).kernel_heap,
                self.user_heap.base == old(self).user_heap.base,
                self.user_heap.blocks@ == old(self).user_heap.blocks@,
                self.user_heap.backing == old(self).user_heap.backing + i * PAGE_SIZE,
                self.pt.last_mapped == old(self).pt.last_mapped + i * PAGE_SIZE,
                self.pt.last_mapped + (pages - i) * PAGE_SIZE + 2 * PAGE_SIZE <= 0xffc0_0000,
                new_page as int % PAGE_SIZE as int == 0,
                new_page + pages * PAGE_SIZE <= 0xffff_f000,
                new_page >= PAGE_SIZE,
                i > 0 ==> new_page != old(self).pt.last_mapped + PAGE_SIZE,
                new_page as int / PAGE_SIZE as int + pages <= self.frames.bitmap.size,
                old(self).pt.last_mapped as int % PAGE_SIZE as int == 0,
                expand_leaves_mapped(
                    self.pt,
                    old(self).pt,
                    old(self).pt.last_mapped as int,
                    i as int,
                    new_page as int,
                ),
                expand_leaves_kept(
                    self.pt,
                    old(self).pt,
                    old(self).pt.last_mapped + i * PAGE_SIZE,
                ),
                forall|j: int|
                    new_page as int / PAGE_SIZE as int <= j < new_page as int / PAGE_SIZE as int
                        + pages ==> self.frames.bitmap@[j],
                self.frames.bitmap.size == old(self).frames.bitmap.size,
                self.frames.reserved_mem == old(self).frames.reserved_mem,
                self.frames.is_initialized() == old(self).frames.is_initialized(),
                forall|j: int|
                    0 <= j < old(self).frames.bitmap@.len() && old(self).frames.bitmap@[j]
                        ==> self.frames.bitmap@[j],
            decreases pages - i,
        {
            let target = self.pt.last_mapped + PAGE_SIZE;
            let phys = new_page + i * PAGE_SIZE;
            if target == phys {
                // An identity coincidence would leave the heap
                // bookkeeping behind the mapping; stop growing and
                // report exhaustion instead. It can only surface on
                // the first page: later targets and frames advance in
                // lockstep.
                proof {
                    if i > 0 {
                        assert(old(self).pt.last_mapped + PAGE_SIZE == new_page);
                        assert(false);
                    }
                    assert(self.pt.last_mapped == old(self).pt.last_mapped);
                    assert(new_page == self.pt.last_mapped + PAGE_SIZE);
                    vstd::arithmetic::div_mod::lemma_fundamental_div_mod(
                        new_page as int,
                        PAGE_SIZE as int,
                    );
                    assert((self.pt.last_mapped + PAGE_SIZE) / PAGE_SIZE as int
                        == new_page as int / PAGE_SIZE as int);
                }
                return false;
            }
            let ghost pt_pre = self.pt;
            let res = self.pt.memory_map(target, phys, &mut self.frames);
            if res == MapResult::OutOfFrames {
                return false;
            }
            self.user_heap.backing = self.user_heap.backing + PAGE_SIZE;
            proof {
                let lm0 = old(self).pt.last_mapped as int;
                let tgt = lm0 + (i + 1) * PAGE_SIZE;
                assert(target == tgt);
                assert(tgt % PAGE_SIZE as int == 0) by {
                    vstd::arithmetic::div_mod::lemma_mod_multiples_vanish(
                        i as int + 1,
                        lm0,
                        PAGE_SIZE as int,
                    );
                }
                assert(expand_leaves_mapped(pt_pre, old(self).pt, lm0, i as int, new_page as int));
                assert(expand_leaves_kept(pt_pre, old(self).pt, lm0 + i * PAGE_SIZE));
                assert(0 <= tgt < 0xffc0_0000);
                assert(pdi_of(tgt) != 1023) by {
                    vstd::arithmetic::div_mod::lemma_div_is_ordered(tgt, 0xffbf_ffff, 0x40_0000);
                }
                assert(pt_pre.wf());
                assert forall|u: int|
                    lm0 + PAGE_SIZE <= u <= lm0 + (i + 1) * PAGE_SIZE && u % PAGE_SIZE as int
                        == 0 implies (#[trigger] self.pt.mapping_present(u)) && (!old(
                    self,
                ).pt.mapping_present(u) ==> self.pt.translation(u) == (new_page + (u - lm0
                    - PAGE_SIZE)) as u32) by {
                    if u == tgt {
                        if res == MapResult::AlreadyMapped {
                            assert(pt_pre.mapping_present(tgt));
                            assert(self.pt.tables@ == pt_pre.tables@);
                            assert(self.pt.page_directory@ == pt_pre.page_directory@);
                            assert(self.pt.mapping_present(tgt));
                            assert(old(self).pt.mapping_present(u));
                        } else {
                            assert(self.pt.mapping_present(tgt));
                            assert(self.pt.translation(tgt) == phys as u32);
                        }
                    } else {
                        assert(u <= lm0 + i * PAGE_SIZE) by {
                            if lm0 + i * PAGE_SIZE < u {
                                vstd::arithmetic::div_mod::lemma_fundamental_div_mod(
                                    u,
                                    PAGE_SIZE as int,
                                );
                                vstd::arithmetic::div_mod::lemma_fundamental_div_mod(
                                    lm0,
                                    PAGE_SIZE as int,
                                );
                                let qu = u / PAGE_SIZE as int;
                                let ql = lm0 / PAGE_SIZE as int;
                                assert(false) by (nonlinear_arith)
                                    requires
                                        u == 4096 * qu,
                                        lm0 == 4096 * ql,
                                        lm0 + i * 4096 < u,
                                        u < lm0 + (i + 1) * 4096,
                                        0 <= i,
                                {
                                }
                            }
                        }
                        assert(pt_pre.mapping_present(u));
                        pagetable::lemma_other_leaf_kept(pt_pre, self.pt, tgt, u);
                    }
                }
                assert(expand_leaves_mapped(
                    self.pt,
                    old(self).pt,
                    lm0,
                    i as int + 1,
                    new_page as int,
                ));
                assert forall|u: int|
                    lm0 + (i + 1) * PAGE_SIZE < u < 0x1_0000_0000 && u % PAGE_SIZE as int == 0
                        && pdi_of(u) != 1023 implies (#[trigger] self.pt.mapping_present(u))
                    == old(self).pt.mapping_present(u) && (old(self).pt.mapping_present(u)
                    ==> self.pt.translation(u) == old(self).pt.translation(u)) by {
                    assert(pt_pre.mapping_present(u) == old(self).pt.mapping_present(u));
                    pagetable::lemma_other_leaf_kept(pt_pre, self.pt, tgt, u);
                }
                assert(expand_leaves_kept(self.pt, old(self).pt, lm0 + (i + 1) * PAGE_SIZE));
            }
            i += 1;
        }
        proof {
            let f = new_page as int / PAGE_SIZE as int;
            vstd::arithmetic::div_mod::lemma_fundamental_div_mod(new_page as int, PAGE_SIZE as int);
            assert(new_page == PAGE_SIZE * f);
            assert(old(self).frames.candidate(MemorySpace::User, pages as int, f));
            assert(run_free(old(self).frames.bitmap@, f, pages as int));
            assert(expand_leaves_mapped(
                self.pt,
                old(self).pt,
                old(self).pt.last_mapped as int,
                pages as int,
                new_page as int,
            ));
            assert forall|u: int|
                old(self).pt.last_mapped + PAGE_SIZE <= u <= old(self).pt.last_mapped + pages
                    * PAGE_SIZE && u % PAGE_SIZE as int == 0 implies (
            #[trigger] self.pt.mapping_present(u)) && (!old(self).pt.mapping_present(u)
                ==> self.pt.translation(u) == (f * PAGE_SIZE + (u - old(self).pt.last_mapped
                    - PAGE_SIZE)) as u32) by {
                assert(self.pt.mapping_present(u));
                if !old(self).pt.mapping_present(u) {
                    assert(self.pt.translation(u) == (new_page + (u - old(self).pt.last_mapped
                        - PAGE_SIZE)) as u32);
                }
            }
            assert({
                &&& old(self).frames.candidate(MemorySpace::User, pages as int, f)
                &&& run_free(old(self).frames.bitmap@, f, pages as int)
                &&& forall|q: int|
                    old(self).frames.candidate(MemorySpace::User, pages as int, q) && q < f
                        ==> !run_free(old(self).frames.bitmap@, q, pages as int)
                &&& forall|u: int|
                    old(self).pt.last_mapped + PAGE_SIZE <= u <= old(self).pt.last_mapped + pages
                        * PAGE_SIZE && u % PAGE_SIZE as int == 0 ==> (
                    #[trigger] self.pt.mapping_present(u)) && (!old(self).pt.mapping_present(u)
                        ==> self.pt.translation(u) == (f * PAGE_SIZE + (u - old(
                            self,
                        ).pt.last_mapped - PAGE_SIZE)) as u32)
            });
            assert(expand_grown(*old(self), *self, pages as int)) by {
                assert(exists|ff: int|
                    {
                        &&& old(self).frames.candidate(MemorySpace::User, pages as int, ff)
                        &&& run_free(old(self).frames.bitmap@, ff, pages as int)
                        &&& forall|q: int|
                            old(self).frames.candidate(MemorySpace::User, pages as int, q) && q
                                < ff ==> !run_free(old(self).frames.bitmap@, q, pages as int)
                        &&& forall|u: int|
                            old(self).pt.last_mapped + PAGE_SIZE <= u <= old(self).pt.last_mapped
                                + pages * PAGE_SIZE && u % PAGE_SIZE as int == 0 ==> (
                            #[trigger] self.pt.mapping_present(u)) && (!old(
                                self,
                            ).pt.mapping_present(u) ==> self.pt.translation(u) == (ff * PAGE_SIZE
                                + (u - old(self).pt.last_mapped - PAGE_SIZE)) as u32)
                    }) by {
                    assert(old(self).frames.candidate(MemorySpace::User, pages as int, f));
                }
            }
        }
        true
    }

    /// Allocates `size` bytes from the growable user arena: first-fit
    /// over the merged chain like `kmalloc`, but on exhaustion the
    /// arena requests new frames, maps them contiguously past
    /// `last_mapped`, and retries the scan. Returns `0` for a
    /// zero-size request or when no contiguous frame run can back the
    /// growth. A reuse or an in-backing carve touches neither the
    /// frame allocator nor the page tables.
    #[verifier::rlimit(100)]
    #[verifier::spinoff_prover]
    pub fn vmalloc(&mut self, size: usize) -> (r: usize)
        requires
            old(self).wf(),
            size + 2 * HEADER_SIZE <= 0xffff_ffff,
        ensures
            final(self).wf(),
            final(self).kernel_heap == old(self).kernel_heap,
            final(self).user_heap.base == old(self).user_heap.base,
            final(self).user_heap.backing >= old(self).user_heap.backing,
            size == 0 ==> r == 0 && *final(self) == *old(self),
            size != 0 ==> ({
                let want = align_up(size as int, 16);
                let m = merge_runs(old(self).user_heap.blocks@);
                let kf = first_fit(m, want);
                &&& kf < m.len() && m[kf].size == want ==> r == old(self).user_heap.base
                    + m[kf].off + HEADER_SIZE && final(self).user_heap.blocks@ == m.update(
                    kf,
                    (Block {
                        off: m[kf].off,
                        magic: ALLOC_MAGIC,
                        size: want as usize,
                        freed: false,
                    }),
                ) && final(self).frames == old(self).frames && final(self).pt == old(self).pt
                &&& kf < m.len() && m[kf].size != want ==> r == old(self).user_heap.base
                    + m[kf].off + HEADER_SIZE && final(self).user_heap.blocks@ == m.take(kf)
                    + seq![
                    (Block {
                        off: m[kf].off,
                        magic: ALLOC_MAGIC,
                        size: want as usize,
                        freed: false,
                    }),
                    (Block {
                        off: (m[kf].off + HEADER_SIZE + want) as usize,
                        magic: ALLOC_MAGIC,
                        size: (m[kf].size - want - HEADER_SIZE) as usize,
                        freed: true,
                    }),
                ] + m.skip(kf + 1) && final(self).frames == old(self).frames && final(self).pt
                    == old(self).pt
                &&& kf == m.len() ==> {
                    &&& r != 0 ==> r == old(self).user_heap.base + chain_used(m) + HEADER_SIZE
                        && final(self).user_heap.blocks@ == m + seq![
                        (Block {
                            off: chain_used(m) as usize,
                            magic: ALLOC_MAGIC,
                            size: want as usize,
                            freed: false,
                        }),
                    ]
                    &&& chain_used(m) + HEADER_SIZE + want <= old(self).user_heap.backing ==> r
                        != 0 && final(self).frames == old(self).frames && final(self).pt == old(
                        self,
                    ).pt
                    &&& r == 0 ==> final(self).user_heap.blocks@ == m && sum_live(m) == sum_live(
                        old(self).user_heap.blocks@,
                    ) && expand_failure_cause(*final(self), vmalloc_pages(size as int))
                }
            }),
    {
        if size == 0 {
            return 0;
        }
        proof {
            assert(0x10usize == 1usize << 4usize) by (bit_vector);
        }
        let want = ferramenta::align(size, 0x10);
        let r = self.user_heap.malloc_block(want);
        if r != 0 {
            return r;
        }
        let ghost m = merge_runs(old(self).user_heap.blocks@);
        proof {
            lemma_first_fit(m, want as int);
            lemma_merge_runs_result(old(self).user_heap.blocks@);
            lemma_merge_runs_sum(
                old(self).user_heap.blocks@,
                old(self).user_heap.backing as int,
            );
        }
        // Exhausted: grow the mapped backing until the carve fits,
        // then rescan, as batches of frames become mapped heap.
        let used = self.user_heap.used_bytes();
        let mut pages: usize = (HEADER_SIZE + want) / PAGE_SIZE;
        if pages == 0 {
            pages = 1;
        }
        while self.user_heap.backing - used < HEADER_SIZE + want
            invariant
                self.wf(),
                self.kernel_heap == old(self).kernel_heap,
                self.user_heap.base == old(self).user_heap.base,
                self.user_heap.backing >= old(self).user_heap.backing,
                self.user_heap.blocks@ == m,
                m == merge_runs(old(self).user_heap.blocks@),
                normalized(m),
                sum_live(m) == sum_live(old(self).user_heap.blocks@),
                used == chain_used(m),
                used <= self.user_heap.backing,
                1 <= pages <= 0xf_ffff,
                pages == vmalloc_pages(size as int),
                want == align_up(size as int, 16),
                want as int % 16 == 0,
                1 <= size,
                size + 2 * HEADER_SIZE <= 0xffff_ffff,
                size <= want < size + 16,
                first_fit(m, want as int) == m.len(),
            decreases 0xffff_ffff - self.user_heap.backing,
        {
            if !self.expand_heap(pages) {
                return 0;
            }
        }
        let r2 = self.user_heap.malloc_block(want);
        proof {
            lemma_merge_runs_normalized(m);
            assert(merge_runs(m) == m);
            lemma_first_fit(m, want as int);
        }
        r2
    }

    /// `vmalloc` for zero-initialized memory; as with `kzalloc`, the
    /// allocation itself is identical under this model.
    pub fn vzalloc(&mut self, size: usize) -> (r: usize)
        requires
            old(self).wf(),
            size + 3 * HEADER_SIZE <= 0xffff_ffff,
        ensures
            final(self).wf(),
            final(self).kernel_heap == old(self).kernel_heap,
            final(self).user_heap.base == old(self).user_heap.base,
            size == 0 ==> r == 0 && *final(self) == *old(self),
            size != 0 ==> ({
                let want = align_up(size as int, 16);
                let m = merge_runs(old(self).user_heap.blocks@);
                let kf = first_fit(m, want);
                &&& kf < m.len() ==> r == old(self).user_heap.base + m[kf].off + HEADER_SIZE
                    && final(self).frames == old(self).frames
                &&& kf == m.len() && r != 0 ==> r == old(self).user_heap.base + chain_used(m)
                    + HEADER_SIZE && final(self).user_heap.blocks@ == m + seq![
                    (Block {
                        off: chain_used(m) as usize,
                        magic: ALLOC_MAGIC,
                        size: want as usize,
                        freed: false,
                    }),
                ]
                &&& kf == m.len() && r == 0 ==> final(self).user_heap.blocks@ == m
                    && expand_failure_cause(*final(self), vmalloc_pages(size as int))
            }),
    {
        if size == 0 {
            return self.vmalloc(0);
        }
        proof {
            assert(0x10usize == 1usize << 4usize) by (bit_vector);
        }
        let size2 = ferramenta::align(size, 0x10);
        proof {
            ferramenta::lemma_align_up_unique(size2 as int, 16, size2 as int);
        }
        self.vmalloc(size2)
    }

    /// Frees a user-arena allocation; see `kfree`.
    pub fn vfree(&mut self, address: usize) -> (r: FreeStatus)
        requires
            old(self).wf(),
        ensures
            final(self).wf(),
            final(self).frames == old(self).frames,
            final(self).pt == old(self).pt,
            final(self).kernel_heap == old(self).kernel_heap,
            final(self).user_heap.base == old(self).user_heap.base,
            final(self).user_heap.backing == old(self).user_heap.backing,
            r != FreeStatus::Freed ==> final(self).user_heap.blocks@ == old(
                self,
            ).user_heap.blocks@,
            ({
                let s = old(self).user_heap.blocks@;
                let off = address - old(self).user_heap.base - HEADER_SIZE;
                let kf = find_off(s, off);
                &&& address == 0 ==> r == FreeStatus::NullPointer
                &&& address != 0 && address < old(self).user_heap.base + HEADER_SIZE ==> r
                    == FreeStatus::BelowBounds
                &&& address >= old(self).user_heap.base + HEADER_SIZE && address > old(
                    self,
                ).user_heap.base + old(self).user_heap.backing ==> r == FreeStatus::AboveBounds
                &&& old(self).user_heap.base + HEADER_SIZE <= address <= old(self).user_heap.base
                    + old(self).user_heap.backing ==> {
                    &&& kf == s.len() ==> r == FreeStatus::BadMagic
                    &&& kf < s.len() && s[kf].freed ==> r == FreeStatus::DoubleFree
                    &&& kf < s.len() && !s[kf].freed ==> r == FreeStatus::Freed
                        && final(self).user_heap.blocks@ == coalesce_at(
                        s.update(
                            kf,
                            (Block {
                                off: s[kf].off,
                                magic: ALLOC_MAGIC,
                                size: s[kf].size,
                                freed: true,
                            }),
                        ),
                        kf,
                    ) && sum_live(final(self).user_heap.blocks@) == sum_live(s) - s[kf].size
                }
            }),
    {
        self.user_heap.free(address)
    }

    /// Payload size of a live user-arena allocation; see `ksize`.
    pub fn vsize(&self, address: usize) -> (r: usize)
        requires
            self.wf(),
        ensures
            ({
                let s = self.user_heap.blocks@;
                let off = address - self.user_heap.base - HEADER_SIZE;
                let kf = find_off(s, off);
                if address == 0 || address < self.user_heap.base + HEADER_SIZE || address
                    > self.user_heap.base + self.user_heap.backing {
                    r == 0
                } else if kf < s.len() && !s[kf].freed {
                    r == s[kf].size
                } else {
                    r == 0
                }
            }),
    {
        self.user_heap.size_of(address)
    }
}

/// The arena-level bound, stated for both arenas of the memory
/// manager: whatever allocations and frees have happened, the live
/// payloads of the kernel arena fit its fixed window, and those of the
/// user arena fit the bytes currently mapped behind the heap.
pub proof fn lemma_manager_live_sums(m: MemoryManager)
    requires
        m.wf(),
    ensures
        sum_live(m.kernel_heap.blocks@) <= m.kernel_heap.backing,
        sum_live(m.user_heap.blocks@) <= m.pt.last_mapped + PAGE_SIZE - m.pt.heap_start,
{
    lemma_live_sum_bounded(m.kernel_heap);
    lemma_live_sum_bounded(m.user_heap);
}

} // verus!
