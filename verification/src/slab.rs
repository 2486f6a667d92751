//! A slab: one page-sized memory block partitioned into equal object
//! slots, with a free bitmap over the slots.

use vstd::prelude::*;

verus! {

use core::ops::Range;
use crate::AllocError;
use crate::backing::BackingAllocator;
use crate::bits::{
    popcount,
    clear_lowest,
    lemma_popcount_zero,
    lemma_popcount_mask,
    lemma_popcount_set_bit,
    lemma_set_bit_bound,
    lemma_tz_bound,
    lemma_clear_lowest,
    lemma_clear_lowest_restore,
    lemma_clear_lowest_tz,
};
use vstd::arithmetic::power::pow;
use vstd::arithmetic::power2::{
    pow2,
    is_pow2,
    is_pow2_equiv,
    lemma_pow2_adds,
    lemma_pow2_subtracts,
    lemma_pow2_strictly_increases,
    lemma2_to64,
    lemma2_to64_rest,
};
use vstd::std_specs::bits::u64_trailing_zeros;

/// Size in bytes of one memory page, which is also its alignment.
pub const PAGE_SIZE: usize = 4096;

/// Number of object slots a page yields for the given object size.
pub open spec fn spec_objects_per_page(object_size: nat) -> nat {
    4096nat / object_size
}

/// Number of object slots a page yields for the given object size.
pub fn objects_per_page(object_size: usize) -> (r: usize)
    requires
        object_size >= 1,
    ensures
        r == spec_objects_per_page(object_size as nat),
{
    PAGE_SIZE / object_size
}

/// A power-of-two object size in `[64, 4096)` divides the page size, and a
/// page then holds between 2 and 64 objects.
pub proof fn lemma_capacity(object_size: usize)
    requires
        is_pow2(object_size as int),
        64 <= object_size < 4096,
    ensures
        2 <= spec_objects_per_page(object_size as nat) <= 64,
        spec_objects_per_page(object_size as nat) * object_size == 4096,
{
    is_pow2_equiv(object_size as int);
    let i = choose|i: nat| pow(2, i) == object_size as int;
    assert(pow2(i) == object_size);
    lemma2_to64();
    if i < 6 {
        lemma_pow2_strictly_increases(i, 6);
    }
    if i > 12 {
        lemma_pow2_strictly_increases(12, i);
    }
    assert(6 <= i < 12);
    lemma_pow2_subtracts(i, 12);
    lemma_pow2_adds((12 - i) as nat, i);
    if 12 - i < 6 {
        lemma_pow2_strictly_increases((12 - i) as nat, 6);
    }
    if 1 < 12 - i {
        lemma_pow2_strictly_increases(1, (12 - i) as nat);
    }
}

/// One fixed-size partition of a single page, tracking the free state of
/// each object slot in one bitmap.
pub struct Slab {
    /// Object size in bytes: a power of two in `[64, 4096)`.
    pub object_size: usize,
    /// Bit `i` set means slot `i` is free; only the low `4096/object_size`
    /// bits are meaningful.
    pub bitmap: u64,
    /// Base address of the exclusively owned page.
    pub base: usize,
}

impl Slab {
    /// Number of object slots in this slab.
    pub open spec fn capacity(&self) -> nat {
        spec_objects_per_page(self.object_size as nat)
    }

    /// Number of slots currently free.
    pub open spec fn free_count(&self) -> nat {
        popcount(self.bitmap)
    }

    /// Structural consistency: a power-of-two object size in range, a
    /// page-aligned nonzero base whose page fits in the address space,
    /// and no set bits beyond the capacity.
    pub open spec fn wf(&self) -> bool {
        &&& is_pow2(self.object_size as int)
        &&& 64 <= self.object_size < 4096
        &&& self.base != 0
        &&& self.base as int % 4096 == 0
        &&& self.base + 4096 <= usize::MAX
        &&& (self.bitmap as nat) < pow2(self.capacity())
    }

    /// Index of the lowest free slot (meaningful when one is free).
    pub open spec fn lowest_free_slot(&self) -> nat {
        u64_trailing_zeros(self.bitmap) as nat
    }

    /// Start address of slot `i`.
    pub open spec fn slot_addr(&self, i: nat) -> int {
        self.base + i * self.object_size
    }

    /// Does `addr` lie within this slab's page?
    pub open spec fn contains_addr(&self, addr: usize) -> bool {
        self.base <= addr < self.base + 4096
    }

    /// Slot index that `addr` falls into.
    pub open spec fn slot_of(&self, addr: usize) -> nat {
        (((addr - self.base) as int) / (self.object_size as int)) as nat
    }

    /// Is slot `i` currently issued to a caller?
    pub open spec fn slot_issued(&self, i: nat) -> bool {
        i < self.capacity() && (self.bitmap >> (i as u64)) & 1 == 0
    }

    /// The slab after issuing its lowest free slot.
    pub open spec fn after_issue(&self) -> Slab {
        Slab { bitmap: clear_lowest(self.bitmap), ..*self }
    }

    /// The slab after releasing slot `i`.
    pub open spec fn after_release(&self, i: nat) -> Slab {
        if i < 64 {
            Slab { bitmap: self.bitmap | (1u64 << (i as u64)), ..*self }
        } else {
            *self
        }
    }

    /// Create a slab for the given object size from one freshly acquired
    /// page; all slots start out free.
    pub fn new_in<A: BackingAllocator>(object_size: usize, allocator: &mut A) -> (r: Result<
        Slab,
        AllocError,
    >)
        requires
            old(allocator).wf(),
            is_pow2(object_size as int),
            64 <= object_size < 4096,
        ensures
            final(allocator).wf(),
            match r {
                Ok(slab) => {
                    &&& slab.wf()
                    &&& slab.object_size == object_size
                    &&& slab.bitmap as nat == pow2(slab.capacity()) - 1
                    &&& slab.free_count() == slab.capacity()
                    &&& !old(allocator).live().contains(slab.base as int)
                    &&& final(allocator).live() == old(allocator).live().insert(slab.base as int)
                },
                Err(_) => final(allocator).live() == old(allocator).live(),
            },
    {
        let cap = objects_per_page(object_size);
        proof {
            lemma_capacity(object_size);
        }
        let base = match allocator.acquire(PAGE_SIZE, PAGE_SIZE) {
            Ok(b) => b,
            Err(e) => {
                return Err(e);
            },
        };
        proof {
            lemma2_to64_rest();
            lemma_popcount_mask(cap as nat);
            if cap < 64 {
                vstd::bits::lemma_u64_pow2_no_overflow(cap as nat);
                vstd::bits::lemma_u64_shl_is_mul(1u64, cap as u64);
                vstd::arithmetic::power2::lemma_pow2_pos(cap as nat);
            }
        }
        let bitmap: u64 = if cap == 64 {
            u64::MAX
        } else {
            (1u64 << (cap as u64)) - 1
        };
        Ok(Slab { object_size, bitmap, base })
    }

    /// The range of addresses covered by this slab's page.
    pub fn memory_range(&self) -> (r: Range<usize>)
        requires
            self.base + 4096 <= usize::MAX,
        ensures
            r.start == self.base,
            r.end == self.base + 4096,
    {
        self.base..(self.base + PAGE_SIZE)
    }

    /// Number of currently free objects in this slab.
    pub fn remaining_object_count(&self) -> (r: usize)
        ensures
            r == self.free_count(),
    {
        self.bitmap.count_ones() as usize
    }

    /// Whether no object is free.
    pub fn is_empty(&self) -> (r: bool)
        ensures
            r == (self.free_count() == 0),
    {
        self.remaining_object_count() == 0
    }

    /// Issue the lowest-indexed free slot, if any: clear its bit and hand
    /// out its byte range.
    pub fn next_object(&mut self) -> (r: Option<Range<usize>>)
        requires
            old(self).wf(),
        ensures
            final(self).wf(),
            old(self).free_count() == 0 ==> r is None && *final(self) == *old(self),
            old(self).free_count() > 0 ==> ({
                &&& old(self).lowest_free_slot() < old(self).capacity()
                &&& *final(self) == old(self).after_issue()
                &&& final(self).free_count() == old(self).free_count() - 1
                &&& r matches Some(range) && range.start == old(self).slot_addr(
                    old(self).lowest_free_slot(),
                ) && range.end == range.start + old(self).object_size
            }),
    {
        if self.is_empty() {
            return None;
        }
        proof {
            lemma_popcount_zero(self.bitmap);
            lemma_capacity(self.object_size);
            lemma_tz_bound(self.bitmap, self.capacity());
            lemma_clear_lowest(self.bitmap);
        }
        let idx = self.bitmap.trailing_zeros() as usize;
        self.bitmap = self.bitmap & !(1u64 << (idx as u64));
        proof {
            assert(idx * self.object_size + self.object_size <= 4096) by (nonlinear_arith)
                requires
                    idx + 1 <= self.capacity(),
                    self.capacity() * self.object_size == 4096,
                    self.object_size >= 1,
            ;
        }
        let start = self.base + idx * self.object_size;
        Some(start..(start + self.object_size))
    }

    /// Mark the slot that starts at `addr` free again.
    pub fn return_object(&mut self, addr: usize)
        requires
            old(self).wf(),
            old(self).contains_addr(addr),
            ((addr - old(self).base) as int) % (old(self).object_size as int) == 0,
            old(self).slot_issued(old(self).slot_of(addr)),
        ensures
            final(self).wf(),
            *final(self) == old(self).after_release(old(self).slot_of(addr)),
            final(self).free_count() == old(self).free_count() + 1,
    {
        proof {
            lemma_capacity(self.object_size);
        }
        let offset = addr - self.base;
        let idx = offset / self.object_size;
        proof {
            lemma_popcount_set_bit(self.bitmap, idx as u64);
            lemma_set_bit_bound(self.bitmap, idx as u64, self.capacity());
        }
        self.bitmap = self.bitmap | (1u64 << (idx as u64));
    }
}

/// A slot's start address is a multiple of the object size, and the slot
/// lies within the slab's page.
pub proof fn lemma_slot_addr_aligned(sl: Slab, i: nat)
    requires
        sl.wf(),
        i < sl.capacity(),
    ensures
        sl.slot_addr(i) % (sl.object_size as int) == 0,
        sl.base <= sl.slot_addr(i),
        sl.slot_addr(i) + sl.object_size <= sl.base + 4096,
{
    lemma_capacity(sl.object_size);
    let scap = sl.capacity() as int;
    let size = sl.object_size as int;
    vstd::arithmetic::div_mod::lemma_fundamental_div_mod(sl.base as int, 4096);
    let k = sl.base as int / 4096;
    assert(sl.base as int == (scap * k) * size) by (nonlinear_arith)
        requires
            sl.base as int == 4096 * k,
            scap * size == 4096,
    ;
    vstd::arithmetic::div_mod::lemma_mod_multiples_basic(scap * k, size);
    vstd::arithmetic::div_mod::lemma_mod_multiples_basic(i as int, size);
    vstd::arithmetic::div_mod::lemma_add_mod_noop(sl.base as int, i as int * size, size);
    assert(0int % size == 0) by (nonlinear_arith)
        requires
            size >= 1,
    ;
    assert(i as int * size >= 0 && i as int * size + size == (i + 1) * size && (i + 1) * size
        <= scap * size) by (nonlinear_arith)
        requires
            0 <= i as int,
            i as int + 1 <= scap,
            size >= 1,
    ;
}

/// Law: issuing twice from a slab, with no release in between, hands out
/// slots in strictly increasing index order.
pub proof fn lemma_issue_order(s: Slab)
    requires
        s.wf(),
        s.free_count() >= 2,
    ensures
        s.after_issue().free_count() >= 1,
        s.after_issue().lowest_free_slot() > s.lowest_free_slot(),
{
    lemma_popcount_zero(s.bitmap);
    lemma_clear_lowest(s.bitmap);
    lemma_popcount_zero(clear_lowest(s.bitmap));
    lemma_clear_lowest_tz(s.bitmap);
}

/// The slab after `k` successive issues.
pub open spec fn issue_n(s: Slab, k: nat) -> Slab
    decreases k,
{
    if k == 0 {
        s
    } else {
        issue_n(s, (k - 1) as nat).after_issue()
    }
}

/// Each of `k <= free_count` successive issues takes exactly one slot.
pub proof fn lemma_issue_n_drains(s: Slab, k: nat)
    requires
        s.wf(),
        k <= s.free_count(),
    ensures
        issue_n(s, k).wf(),
        issue_n(s, k).free_count() == s.free_count() - k,
    decreases k,
{
    if k > 0 {
        lemma_issue_n_drains(s, (k - 1) as nat);
        let t = issue_n(s, (k - 1) as nat);
        lemma_popcount_zero(t.bitmap);
        lemma_clear_lowest(t.bitmap);
    }
}

/// Law: a fresh slab reports `4096/object_size` free objects, and after
/// exactly that many successive issues it reports none.
pub proof fn lemma_drain_to_empty(s: Slab)
    requires
        s.wf(),
        s.free_count() == s.capacity(),
    ensures
        issue_n(s, s.capacity()).free_count() == 0,
{
    lemma_issue_n_drains(s, s.capacity());
}

/// Law: issuing a slot and immediately releasing that same slot restores
/// the slab exactly, free count and bitmap alike.
pub proof fn lemma_issue_release_round_trip(s: Slab)
    requires
        s.wf(),
        s.free_count() > 0,
    ensures
        s.after_issue().slot_issued(s.lowest_free_slot()),
        s.after_issue().after_release(s.lowest_free_slot()) == s,
{
    lemma_popcount_zero(s.bitmap);
    lemma_capacity(s.object_size);
    lemma_tz_bound(s.bitmap, s.capacity());
    lemma_clear_lowest(s.bitmap);
    lemma_clear_lowest_restore(s.bitmap);
}

} // verus!
