//! Small helpers shared by the memory subsystem: single-bit access on
//! 32-bit words, alignment arithmetic, and a bit-per-frame bitmap.

use vstd::prelude::*;

verus! {

/// Whether bit `n` (counting from the least significant end) of `v` is set.
pub open spec fn nth_bit32(v: u32, n: u8) -> bool
    recommends
        n < 32,
{
    v & (1u32 << (n as u32)) != 0
}

pub fn get_bit_at(input: u32, n: u8) -> (r: bool)
    ensures
        r == (n < 32 && nth_bit32(input, n)),
{
    if n < 32 {
        return input & (1u32 << (n as u32)) != 0;
    }
    false
}

pub fn set_bit(var: &mut u32, value: bool, bit: u8)
    requires
        bit < 32,
    ensures
        *final(var) == (if value {
            *old(var) | (1u32 << (bit as u32))
        } else {
            *old(var) & !(1u32 << (bit as u32))
        }),
{
    if value {
        *var |= 1u32 << (bit as u32);
    } else {
        *var &= !(1u32 << (bit as u32));
    }
}

/// The least multiple of `bound` that is at least `val`.
pub open spec fn align_up(val: int, bound: int) -> int
    recommends
        bound > 0,
{
    ((val + bound - 1) / bound) * bound
}

#[verifier::rlimit(100)]
#[verifier::spinoff_prover]
proof fn lemma_align_bits(val: usize, bound: usize, s: usize, k: usize)
    by (bit_vector)
    requires
        bound == 1usize << k,
        k < 32,
        s == val + bound - 1,
    ensures
        (s & !((bound - 1) as usize)) % bound == 0,
        val <= (s & !((bound - 1) as usize)),
        (s & !((bound - 1) as usize)) < val + bound,
{
}

/// `align_up` lands on a multiple of `bound` within one `bound` of
/// `val`.
pub proof fn lemma_align_up_bounds(val: int, bound: int)
    requires
        0 <= val,
        0 < bound,
    ensures
        val <= align_up(val, bound) < val + bound,
        align_up(val, bound) % bound == 0,
{
    let a = align_up(val, bound);
    vstd::arithmetic::div_mod::lemma_fundamental_div_mod(val + bound - 1, bound);
    vstd::arithmetic::div_mod::lemma_mod_bound(val + bound - 1, bound);
    assert(a % bound == 0) by {
        vstd::arithmetic::div_mod::lemma_mod_multiples_basic((val + bound - 1) / bound, bound);
    }
}

/// The unique multiple of `bound` in `[val, val + bound)` is `align_up`.
pub proof fn lemma_align_up_unique(val: int, bound: int, r: int)
    requires
        0 <= val,
        0 < bound,
        r % bound == 0,
        val <= r < val + bound,
    ensures
        r == align_up(val, bound),
{
    let a = align_up(val, bound);
    vstd::arithmetic::div_mod::lemma_fundamental_div_mod(val + bound - 1, bound);
    vstd::arithmetic::div_mod::lemma_mod_bound(val + bound - 1, bound);
    assert(val <= a < val + bound);
    assert(a % bound == 0) by {
        vstd::arithmetic::div_mod::lemma_mod_multiples_basic((val + bound - 1) / bound, bound);
    }
    vstd::arithmetic::div_mod::lemma_fundamental_div_mod(r, bound);
    assert(r == bound * (r / bound));
    assert(a == bound * ((val + bound - 1) / bound));
    assert(bound * (r / bound) == bound * ((val + bound - 1) / bound)) by (nonlinear_arith)
        requires
            0 < bound,
            val <= bound * (r / bound) < val + bound,
            val <= bound * ((val + bound - 1) / bound) < val + bound,
    {
    }
}

/// Rounds `val` up to the next multiple of `bound`; `bound` must be a
/// power of two, as the mask trick below only works for those.
pub fn align(val: usize, bound: usize) -> (r: usize)
    requires
        exists|k: usize| k < 32 && bound == 1usize << k,
        val + bound - 1 <= usize::MAX,
    ensures
        r == align_up(val as int, bound as int),
        val <= r < val + bound,
        r % bound == 0,
{
    proof {
        let k = choose|k: usize| k < 32 && bound == 1usize << k;
        assert(bound >= 1) by (bit_vector)
            requires
                bound == 1usize << k,
                k < 32,
        ;
    }
    if val == 0 {
        proof {
            vstd::arithmetic::div_mod::lemma_basic_div(bound - 1, bound as int);
        }
        return 0;
    }
    let s: usize = (val - 1) + bound;
    proof {
        let k = choose|k: usize| k < 32 && bound == 1usize << k;
        lemma_align_bits(val, bound, s, k);
        lemma_align_up_unique(val as int, bound as int, (s & !((bound - 1) as usize)) as int);
    }
    s & !(bound - 1)
}

pub fn in_range(input: usize, start: usize, range: usize) -> (r: bool)
    requires
        start + range <= usize::MAX,
    ensures
        r == (start <= input < start + range),
{
    input >= start && input < start + range
}

pub fn divide_up(dividend: usize, divisor: usize) -> (r: usize)
    requires
        divisor > 0,
    ensures
        r == (dividend + divisor - 1) / (divisor as int),
        dividend <= r * divisor < dividend + divisor,
{
    if dividend == 0 {
        proof {
            vstd::arithmetic::div_mod::lemma_basic_div(divisor - 1, divisor as int);
        }
        return 0;
    }
    let q = (dividend - 1) / divisor;
    proof {
        vstd::arithmetic::div_mod::lemma_fundamental_div_mod(dividend - 1, divisor as int);
        vstd::arithmetic::div_mod::lemma_mod_bound(dividend - 1, divisor as int);
        let rem: int = (dividend - 1) % (divisor as int);
        vstd::arithmetic::div_mod::lemma_div_multiples_vanish_fancy(
            q as int + 1,
            rem,
            divisor as int,
        );
        assert((divisor as int) * (q as int + 1) == (divisor as int) * (q as int) + divisor)
            by (nonlinear_arith);
        assert(dividend + divisor - 1 == (divisor as int) * (q as int + 1) + rem);
        vstd::arithmetic::div_mod::lemma_div_nonincreasing(dividend - 1, divisor as int);
        assert((q as int + 1) * (divisor as int) == (divisor as int) * (q as int + 1))
            by (nonlinear_arith);
        assert(dividend <= (q as int + 1) * (divisor as int) < dividend + divisor);
    }
    q + 1
}

pub open spec fn spec_pow(base: int, exp: nat) -> int
    decreases exp,
{
    if exp == 0 {
        1
    } else {
        base * spec_pow(base, (exp - 1) as nat)
    }
}

/// Repeated multiplication; `n2 == 0` behaves like `n2 == 1` because
/// the accumulator starts at the base.
pub fn pow(n1: usize, n2: usize) -> (r: usize)
    requires
        forall|e: nat| e <= n2 ==> spec_pow(n1 as int, e) <= usize::MAX,
    ensures
        r == spec_pow(n1 as int, if n2 == 0 { 1nat } else { n2 as nat }),
{
    let mut r: usize = n1;
    let mut i: usize = 1;
    assert(spec_pow(n1 as int, 1) == n1) by {
        reveal_with_fuel(spec_pow, 2);
    }
    while i < n2
        invariant
            1 <= i,
            i <= n2 || (n2 == 0 && i == 1),
            r == spec_pow(n1 as int, i as nat),
            forall|e: nat| e <= n2 ==> spec_pow(n1 as int, e) <= usize::MAX,
        decreases n2 - i,
    {
        proof {
            assert(spec_pow(n1 as int, (i + 1) as nat) <= usize::MAX);
            assert(spec_pow(n1 as int, (i + 1) as nat) == n1 * spec_pow(n1 as int, i as nat));
            assert(n1 * spec_pow(n1 as int, i as nat) == r * n1) by (nonlinear_arith)
                requires
                    r == spec_pow(n1 as int, i as nat),
            {
            }
        }
        r = r * n1;
        i = i + 1;
    }
    r
}

/// Whether bit `k` of byte `b` is set, counting from the most
/// significant end, as the bitmap stores its bits.
pub open spec fn byte_bit(b: u8, k: int) -> bool
    recommends
        0 <= k < 8,
{
    b & (0x80u8 >> (k as u8)) != 0
}

proof fn lemma_byte_set_true(b: u8, k: u8, j: u8)
    by (bit_vector)
    requires
        k < 8,
        j < 8,
    ensures
        (((b & !(0x80u8 >> k)) | (0x80u8 >> k)) & (0x80u8 >> j) != 0) == (j == k || b & (0x80u8
            >> j) != 0),
{
}

proof fn lemma_byte_set_false(b: u8, k: u8, j: u8)
    by (bit_vector)
    requires
        k < 8,
        j < 8,
    ensures
        ((b & !(0x80u8 >> k)) & (0x80u8 >> j) != 0) == (j != k && b & (0x80u8 >> j) != 0),
{
}

/// One bit per physical frame; `true` means the frame is unavailable
/// (reserved or locked), `false` means it is free.
pub struct Bitmap {
    pub buffer: Vec<u8>,
    /// Number of bits in use; the buffer may carry slack bytes.
    pub size: usize,
}

impl View for Bitmap {
    type V = Seq<bool>;

    open spec fn view(&self) -> Seq<bool> {
        Seq::new(self.size as nat, |i: int| byte_bit(self.buffer@[i / 8], i % 8))
    }
}

impl Bitmap {
    pub open spec fn wf(self) -> bool {
        self.size <= self.buffer@.len() * 8
    }

    pub fn get(&self, index: usize) -> (r: bool)
        requires
            self.wf(),
            index < self.size,
        ensures
            r == self@[index as int],
    {
        let byte_index: usize = index / 8;
        let bit_index: u8 = (index % 8) as u8;
        let bit_indexer: u8 = 0x80u8 >> bit_index;
        proof {
            assert(index / 8 < self.buffer@.len()) by (nonlinear_arith)
                requires
                    index < self.size,
                    self.size <= self.buffer@.len() * 8,
            {
            }
        }
        if self.buffer[byte_index] & bit_indexer > 0 {
            return true;
        }
        return false;
    }

    pub fn set(&mut self, index: usize, value: bool)
        requires
            old(self).wf(),
            index < old(self).size,
        ensures
            final(self).wf(),
            final(self)@ == old(self)@.update(index as int, value),
            final(self).size == old(self).size,
            final(self).buffer@.len() == old(self).buffer@.len(),
    {
        let byte_index: usize = index / 8;
        let bit_index: u8 = (index % 8) as u8;
        let bit_indexer: u8 = 0x80u8 >> bit_index;
        proof {
            assert(index / 8 < self.buffer@.len()) by (nonlinear_arith)
                requires
                    index < self.size,
                    self.size <= self.buffer@.len() * 8,
            {
            }
        }
        let old_byte: u8 = self.buffer[byte_index];
        let new_byte: u8 = if value {
            (old_byte & !bit_indexer) | bit_indexer
        } else {
            old_byte & !bit_indexer
        };
        self.buffer[byte_index] = new_byte;
        proof {
            assert forall|i: int| 0 <= i < self.size implies self@[i] == old(self)@.update(
                index as int,
                value,
            )[i] by {
                vstd::arithmetic::div_mod::lemma_fundamental_div_mod(i, 8);
                vstd::arithmetic::div_mod::lemma_fundamental_div_mod(index as int, 8);
                if i / 8 == byte_index as int {
                    let j = (i % 8) as u8;
                    if value {
                        lemma_byte_set_true(old_byte, bit_index, j);
                    } else {
                        lemma_byte_set_false(old_byte, bit_index, j);
                    }
                }
            }
            assert(self@ =~= old(self)@.update(index as int, value));
        }
    }

    pub fn erase(&mut self)
        requires
            old(self).wf(),
        ensures
            final(self).wf(),
            final(self).size == old(self).size,
            final(self).buffer@.len() == old(self).buffer@.len(),
            final(self)@ == Seq::new(old(self).size as nat, |i: int| true),
    {
        let mut i: usize = 0;
        while i < self.size
            invariant
                self.wf(),
                i <= self.size,
                self.size == old(self).size,
                self.buffer@.len() == old(self).buffer@.len(),
                forall|j: int| 0 <= j < i ==> self@[j] == true,
            decreases self.size - i,
        {
            self.set(i, true);
            i = i + 1;
        }
        proof {
            assert(self@ =~= Seq::new(old(self).size as nat, |i: int| true));
        }
    }

    /// First-fit probe: `0` when bits `index .. index + n` are all
    /// free, otherwise the index of the first occupied bit among them.
    pub fn get_n_pages(&self, index: usize, n: usize) -> (r: usize)
        requires
            self.wf(),
            1 <= index,
            index + n <= self.size,
        ensures
            r == 0 ==> forall|j: int| index <= j < index + n ==> !self@[j],
            r != 0 ==> index <= r < index + n && self@[r as int] && forall|j: int|
                index <= j < r ==> !self@[j],
    {
        let mut i: usize = index;
        while i < index + n
            invariant
                self.wf(),
                1 <= index,
                index <= i <= index + n,
                index + n <= self.size,
                forall|j: int| index <= j < i ==> !self@[j],
            decreases index + n - i,
        {
            if self.get(i) {
                return i;
            }
            i = i + 1;
        }
        0
    }

    /// Adds up four consecutive buffer bytes: a crude word-sized
    /// sample of the bitmap.
    pub fn get_chunk32(&self, index: usize) -> (chunk: u32)
        requires
            index * 4 + 4 <= self.buffer@.len(),
        ensures
            chunk == self.buffer@[index * 4] + self.buffer@[index * 4 + 1] + self.buffer@[index * 4
                + 2] + self.buffer@[index * 4 + 3],
    {
        let len: usize = self.buffer.len();
        assert(index * 4 + 4 <= len);
        let mut chunk: u32 = 0;
        chunk = chunk + (self.buffer[index * 4] as u32);
        chunk = chunk + (self.buffer[index * 4 + 1] as u32);
        chunk = chunk + (self.buffer[index * 4 + 2] as u32);
        chunk = chunk + (self.buffer[index * 4 + 3] as u32);
        chunk
    }
}

} // verus!
