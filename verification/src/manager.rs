//! A size-class pool: a growable collection of slabs of one object size,
//! with a cached count of free objects across all of them.

use vstd::prelude::*;

verus! {

use core::ops::Range;
use crate::AllocError;
use crate::backing::BackingAllocator;
use crate::bits::{lemma_popcount_bound, lemma_tz_odd};
use crate::slab::{Slab, spec_objects_per_page, lemma_capacity, lemma_slot_addr_aligned};
use vstd::arithmetic::div_mod::{lemma_fundamental_div_mod, lemma_div_by_multiple};
use vstd::arithmetic::power2::{is_pow2, pow2, lemma_pow2_unfold, lemma_pow2_pos};
use vstd::set_lib::{set_int_range, lemma_int_range, lemma_len_subset};

/// Total count of free slots over a sequence of slabs.
pub open spec fn sum_free(s: Seq<Slab>) -> nat
    decreases s.len(),
{
    if s.len() == 0 {
        0
    } else {
        s[0].free_count() + sum_free(s.drop_first())
    }
}

/// Total count of issued slots over a sequence of slabs.
pub open spec fn sum_issued(s: Seq<Slab>) -> nat
    decreases s.len(),
{
    if s.len() == 0 {
        0
    } else {
        (s[0].capacity() - s[0].free_count()) as nat + sum_issued(s.drop_first())
    }
}

/// Index of the first slab with a free slot, or the length if none has one.
pub open spec fn first_free(s: Seq<Slab>) -> int
    decreases s.len(),
{
    if s.len() == 0 {
        0
    } else if s[0].free_count() > 0 {
        0
    } else {
        1 + first_free(s.drop_first())
    }
}

/// Index of the slab whose page contains `addr`.
pub open spec fn owner_of(s: Seq<Slab>, addr: usize) -> int {
    choose|k: int| 0 <= k < s.len() && (#[trigger] s[k]).contains_addr(addr)
}

/// Appending a slab adds its free count to the total.
pub proof fn lemma_sum_free_push(s: Seq<Slab>, x: Slab)
    ensures
        sum_free(s.push(x)) == sum_free(s) + x.free_count(),
    decreases s.len(),
{
    let p = s.push(x);
    assert(p.len() == s.len() + 1);
    assert(sum_free(p) == p[0].free_count() + sum_free(p.drop_first()));
    if s.len() == 0 {
        assert(p[0] == x);
        assert(p.drop_first() =~= Seq::<Slab>::empty());
        assert(sum_free(p.drop_first()) == 0);
    } else {
        assert(p[0] == s[0]);
        assert(p.drop_first() =~= s.drop_first().push(x));
        lemma_sum_free_push(s.drop_first(), x);
    }
}

/// Replacing one slab shifts the total by the difference in free counts.
pub proof fn lemma_sum_free_update(s: Seq<Slab>, j: int, x: Slab)
    requires
        0 <= j < s.len(),
    ensures
        sum_free(s.update(j, x)) + s[j].free_count() == sum_free(s) + x.free_count(),
    decreases s.len(),
{
    if j == 0 {
        assert(s.update(0, x).drop_first() =~= s.drop_first());
    } else {
        assert(s.update(j, x).drop_first() =~= s.drop_first().update(j - 1, x));
        lemma_sum_free_update(s.drop_first(), j - 1, x);
    }
}

/// The first slab with a free slot exists exactly when the total free
/// count is positive, and everything before it is fully issued.
pub proof fn lemma_first_free(s: Seq<Slab>)
    ensures
        0 <= first_free(s) <= s.len(),
        first_free(s) < s.len() ==> s[first_free(s)].free_count() > 0,
        forall|k: int| 0 <= k < first_free(s) ==> (#[trigger] s[k]).free_count() == 0,
        (first_free(s) < s.len()) <==> sum_free(s) > 0,
    decreases s.len(),
{
    if s.len() > 0 && s[0].free_count() == 0 {
        lemma_first_free(s.drop_first());
        assert forall|k: int| 0 <= k < first_free(s) implies (#[trigger] s[k]).free_count()
            == 0 by {
            if k > 0 {
                assert(s.drop_first()[k - 1] == s[k]);
            }
        }
    }
}

/// A well-formed slab holds at most 64 objects, so the total free count
/// is bounded by 64 per slab.
pub proof fn lemma_sum_free_bound(s: Seq<Slab>)
    requires
        forall|k: int| 0 <= k < s.len() ==> (#[trigger] s[k]).wf(),
    ensures
        sum_free(s) <= 64 * s.len(),
    decreases s.len(),
{
    if s.len() > 0 {
        lemma_capacity(s[0].object_size);
        lemma_popcount_bound(s[0].bitmap, s[0].capacity());
        assert(forall|k: int| 0 <= k < s.drop_first().len() ==> (#[trigger] s.drop_first()[
        k]).wf());
        lemma_sum_free_bound(s.drop_first());
    }
}

/// Free plus issued slots account for the whole capacity of every slab.
pub proof fn lemma_sum_accounting(s: Seq<Slab>, cap: nat)
    requires
        forall|k: int| 0 <= k < s.len() ==> (#[trigger] s[k]).wf(),
        forall|k: int| 0 <= k < s.len() ==> (#[trigger] s[k]).capacity() == cap,
    ensures
        sum_free(s) + sum_issued(s) == s.len() * cap,
    decreases s.len(),
{
    if s.len() > 0 {
        lemma_capacity(s[0].object_size);
        lemma_popcount_bound(s[0].bitmap, s[0].capacity());
        assert(forall|k: int| 0 <= k < s.drop_first().len() ==> (#[trigger] s.drop_first()[
        k]).wf());
        assert(forall|k: int| 0 <= k < s.drop_first().len() ==> (#[trigger] s.drop_first()[
        k]).capacity() == cap);
        lemma_sum_accounting(s.drop_first(), cap);
        assert(s.len() * cap == (s.len() - 1) * cap + cap) by (nonlinear_arith);
    }
}

/// Two well-formed slabs with different bases own disjoint pages.
pub proof fn lemma_pages_disjoint(a: Slab, b: Slab, addr: usize)
    requires
        a.wf(),
        b.wf(),
        a.base != b.base,
        a.contains_addr(addr),
    ensures
        !b.contains_addr(addr),
{
    lemma_fundamental_div_mod(a.base as int, 4096);
    lemma_fundamental_div_mod(b.base as int, 4096);
}

/// A growable pool of same-size slabs. New slabs are appended on demand
/// and never removed; the cached `remaining_object_count` always equals
/// the sum of the slabs' free counts.
pub struct SlabManager<A: BackingAllocator> {
    /// The owned slabs, in creation order.
    pub slabs: Vec<Slab>,
    /// Cached count of free slots across all owned slabs.
    pub remaining_object_count: usize,
    /// Object size in bytes: a power of two in `[64, 4096)`.
    pub object_size: usize,
    /// The backing allocator that supplies new pages.
    pub inner: A,
}

impl<A: BackingAllocator> SlabManager<A> {
    /// Number of object slots per slab of this pool.
    pub open spec fn capacity(&self) -> nat {
        spec_objects_per_page(self.object_size as nat)
    }

    /// Pool consistency: every slab is well formed with this pool's object
    /// size, slab bases are pairwise distinct pages on loan from the
    /// backing allocator, and the cached count matches the slabs.
    pub open spec fn wf(&self) -> bool {
        &&& is_pow2(self.object_size as int)
        &&& 64 <= self.object_size < 4096
        &&& self.inner.wf()
        &&& (forall|k: int| 0 <= k < self.slabs@.len() ==> (#[trigger] self.slabs@[k]).wf())
        &&& (forall|k: int|
            0 <= k < self.slabs@.len() ==> (#[trigger] self.slabs@[k]).object_size
                == self.object_size)
        &&& (forall|k: int|
            0 <= k < self.slabs@.len() ==> self.inner.live().contains(
                (#[trigger] self.slabs@[k]).base as int,
            ))
        &&& (forall|k1: int, k2: int|
            0 <= k1 < k2 < self.slabs@.len() ==> (#[trigger] self.slabs@[k1]).base != (
            #[trigger] self.slabs@[k2]).base)
        &&& self.remaining_object_count == sum_free(self.slabs@)
    }

    /// Can `addr` be returned to this pool: it starts a slot of exactly
    /// one owned slab, and that slot is currently issued.
    pub open spec fn can_return(&self, addr: usize) -> bool {
        exists|k: int|
            0 <= k < self.slabs@.len() && (#[trigger] self.slabs@[k]).contains_addr(addr) && ((addr
                - self.slabs@[k].base) as int) % (self.object_size as int) == 0
                && self.slabs@[k].slot_issued(self.slabs@[k].slot_of(addr))
    }

    /// A fresh pool with no slabs.
    pub fn new_in(object_size: usize, allocator: A) -> (r: SlabManager<A>)
        requires
            allocator.wf(),
            is_pow2(object_size as int),
            64 <= object_size < 4096,
        ensures
            r.wf(),
            r.object_size == object_size,
            r.slabs@.len() == 0,
            r.remaining_object_count == 0,
            r.inner == allocator,
    {
        SlabManager { slabs: Vec::new(), remaining_object_count: 0, object_size, inner: allocator }
    }

    /// Cached count of free objects across all owned slabs.
    pub fn remaining_object_count(&self) -> (r: usize)
        ensures
            r == self.remaining_object_count,
            self.wf() ==> r == sum_free(self.slabs@),
    {
        self.remaining_object_count
    }

    /// Whether no owned slab has a free object.
    pub fn is_empty(&self) -> (r: bool)
        ensures
            r == (self.remaining_object_count == 0),
    {
        self.remaining_object_count == 0
    }

    /// Issue an object: from the first slab with a free slot, or from a
    /// newly created slab when all are full. Fails only when a new slab
    /// is needed and the backing allocator cannot supply a page.
    pub fn next_object(&mut self) -> (r: Result<Range<usize>, AllocError>)
        requires
            old(self).wf(),
        ensures
            final(self).wf(),
            final(self).object_size == old(self).object_size,
            old(self).remaining_object_count > 0 ==> r is Ok,
            match r {
                Ok(range) => {
                    &&& range.end == range.start + old(self).object_size
                    &&& range.start != 0
                    &&& range.start as int % (old(self).object_size as int) == 0
                    &&& final(self).remaining_object_count + 1 == old(self).remaining_object_count
                        + (if old(self).remaining_object_count == 0 {
                        old(self).capacity()
                    } else {
                        0nat
                    })
                    &&& (old(self).remaining_object_count > 0 ==> ({
                        let j = first_free(old(self).slabs@);
                        &&& final(self).slabs@ == old(self).slabs@.update(
                            j,
                            old(self).slabs@[j].after_issue(),
                        )
                        &&& range.start == old(self).slabs@[j].slot_addr(
                            old(self).slabs@[j].lowest_free_slot(),
                        )
                        &&& final(self).inner == old(self).inner
                    }))
                    &&& (old(self).remaining_object_count == 0 ==> ({
                        let ns = final(self).slabs@.last();
                        &&& final(self).slabs@ == old(self).slabs@.push(ns)
                        &&& ns.object_size == old(self).object_size
                        &&& ns.free_count() == old(self).capacity() - 1
                        &&& range.start == ns.base
                        &&& !old(self).inner.live().contains(ns.base as int)
                        &&& final(self).inner.live() == old(self).inner.live().insert(
                            ns.base as int,
                        )
                    }))
                },
                Err(_) => {
                    &&& final(self).slabs@ == old(self).slabs@
                    &&& final(self).remaining_object_count == old(self).remaining_object_count
                    &&& final(self).inner.live() == old(self).inner.live()
                },
            },
    {
        proof {
            lemma_first_free(self.slabs@);
            lemma_capacity(self.object_size);
        }
        if self.is_empty() {
            let mut new_slab = match Slab::new_in(self.object_size, &mut self.inner) {
                Ok(s) => s,
                Err(e) => {
                    return Err(e);
                },
            };
            proof {
                lemma_pow2_unfold(new_slab.capacity());
                lemma_pow2_pos((new_slab.capacity() - 1) as nat);
                lemma_tz_odd(new_slab.bitmap);
            }
            let ropt = new_slab.next_object();
            let range = match ropt {
                Some(rg) => rg,
                None => {
                    proof {
                        assert(false);
                    }
                    return Err(AllocError);
                },
            };
            let added = new_slab.remaining_object_count();
            self.remaining_object_count = self.remaining_object_count + added;
            proof {
                lemma_sum_free_push(self.slabs@, new_slab);
            }
            let ghost ns = new_slab;
            self.slabs.push(new_slab);
            proof {
                lemma_slot_addr_aligned(ns, 0);
            }
            proof {
                assert forall|k1: int, k2: int| 0 <= k1 < k2 < self.slabs@.len() implies (
                #[trigger] self.slabs@[k1]).base != (#[trigger] self.slabs@[k2]).base by {
                    if k2 == self.slabs@.len() - 1 {
                        assert(old(self).inner.live().contains(self.slabs@[k1].base as int));
                    }
                }
            }
            Ok(range)
        } else {
            let n = self.slabs.len();
            let ghost j = first_free(old(self).slabs@);
            let mut i: usize = 0;
            while i < n
                invariant
                    *self == *old(self),
                    old(self).wf(),
                    old(self).remaining_object_count > 0,
                    n == old(self).slabs@.len(),
                    j == first_free(old(self).slabs@),
                    0 <= j < n,
                    i <= j,
                decreases n - i,
            {
                proof {
                    lemma_first_free(self.slabs@);
                }
                let c = self.slabs[i].remaining_object_count();
                if c > 0 {
                    proof {
                        assert(i == j);
                        lemma_capacity(self.object_size);
                    }
                    let ghost pre = self.slabs@[j as int];
                    let sl = &mut self.slabs[i];
                    let ropt = sl.next_object();
                    let range = match ropt {
                        Some(rg) => rg,
                        None => {
                            proof {
                                assert(false);
                            }
                            return Err(AllocError);
                        },
                    };
                    proof {
                        lemma_sum_free_update(old(self).slabs@, j, pre.after_issue());
                        lemma_slot_addr_aligned(pre, pre.lowest_free_slot());
                    }
                    self.remaining_object_count = self.remaining_object_count - 1;
                    return Ok(range);
                }
                i = i + 1;
            }
            proof {
                assert(false);
            }
            Err(AllocError)
        }
    }

    /// Return an issued object, identified by its start address, to the
    /// slab whose page contains it.
    pub fn return_object(&mut self, addr: usize)
        requires
            old(self).wf(),
            old(self).can_return(addr),
        ensures
            final(self).wf(),
            final(self).object_size == old(self).object_size,
            final(self).inner == old(self).inner,
            final(self).remaining_object_count == old(self).remaining_object_count + 1,
            ({
                let k = owner_of(old(self).slabs@, addr);
                &&& 0 <= k < old(self).slabs@.len()
                &&& final(self).slabs@ == old(self).slabs@.update(
                    k,
                    old(self).slabs@[k].after_release(old(self).slabs@[k].slot_of(addr)),
                )
            }),
    {
        let n = self.slabs.len();
        let mut i: usize = 0;
        while i < n
            invariant
                *self == *old(self),
                old(self).wf(),
                old(self).can_return(addr),
                n == old(self).slabs@.len(),
                i <= n,
                forall|k: int|
                    0 <= k < i ==> !(#[trigger] old(self).slabs@[k]).contains_addr(addr),
            decreases n - i,
        {
            let sl_base = self.slabs[i].base;
            if sl_base <= addr && addr - sl_base < crate::slab::PAGE_SIZE {
                proof {
                    let ghost w = choose|k: int|
                        0 <= k < self.slabs@.len() && (#[trigger] self.slabs@[k]).contains_addr(
                            addr,
                        ) && ((addr - self.slabs@[k].base) as int) % (self.object_size as int) == 0
                            && self.slabs@[k].slot_issued(self.slabs@[k].slot_of(addr));
                    if w != i as int {
                        lemma_pages_disjoint(self.slabs@[w], self.slabs@[i as int], addr);
                    }
                    let ghost o = owner_of(self.slabs@, addr);
                    if o != i as int {
                        lemma_pages_disjoint(self.slabs@[o], self.slabs@[i as int], addr);
                    }
                    lemma_slab_count_bound(self);
                    lemma_sum_free_bound(self.slabs@);
                }
                let ghost pre = self.slabs@[i as int];
                let sl = &mut self.slabs[i];
                sl.return_object(addr);
                proof {
                    lemma_sum_free_update(old(self).slabs@, i as int, pre.after_release(
                        pre.slot_of(addr),
                    ));
                }
                self.remaining_object_count = self.remaining_object_count + 1;
                return ;
            }
            i = i + 1;
        }
        proof {
            let ghost w = choose|k: int|
                0 <= k < self.slabs@.len() && (#[trigger] self.slabs@[k]).contains_addr(addr) && ((
                addr - self.slabs@[k].base) as int) % (self.object_size as int) == 0
                    && self.slabs@[k].slot_issued(self.slabs@[k].slot_of(addr));
            assert(false);
        }
    }
}

/// The slabs' pages are distinct and page-aligned, so a pool can never
/// hold more pages than fit in the address space; in particular the free
/// count stays well below `usize::MAX`.
pub proof fn lemma_slab_count_bound<A: BackingAllocator>(m: &SlabManager<A>)
    requires
        m.wf(),
    ensures
        64 * m.slabs@.len() + 64 <= usize::MAX,
{
    let s = m.slabs@;
    let bound = usize::MAX as int / 4096;
    let q = Seq::new(s.len(), |k: int| s[k].base as int / 4096);
    assert forall|i: int, j: int| 0 <= i < j < q.len() implies q[i] != q[j] by {
        lemma_fundamental_div_mod(s[i].base as int, 4096);
        lemma_fundamental_div_mod(s[j].base as int, 4096);
    }
    assert(q.no_duplicates());
    q.unique_seq_to_set();
    assert forall|a: int| q.to_set().contains(a) implies set_int_range(1, bound).contains(a) by {
        let k = choose|k: int| 0 <= k < q.len() && q[k] == a;
        lemma_fundamental_div_mod(s[k].base as int, 4096);
        lemma_div_by_multiple(s[k].base as int / 4096 + 1, 4096);
        vstd::arithmetic::div_mod::lemma_div_is_ordered(
            4096 * (s[k].base as int / 4096 + 1),
            usize::MAX as int,
            4096,
        );
    }
    assert(usize::MAX >= 4096);
    lemma_fundamental_div_mod(usize::MAX as int, 4096);
    lemma_int_range(1, bound);
    lemma_len_subset(q.to_set(), set_int_range(1, bound));
}

/// Law: at every observation point, the pool's cached free count plus the
/// number of currently issued objects equals the total capacity of all the
/// pages the pool has created.
pub proof fn lemma_free_count_accounting<A: BackingAllocator>(m: &SlabManager<A>)
    requires
        m.wf(),
    ensures
        m.remaining_object_count + sum_issued(m.slabs@) == m.slabs@.len() * m.capacity(),
{
    assert forall|k: int| 0 <= k < m.slabs@.len() implies (#[trigger] m.slabs@[k]).capacity()
        == m.capacity() by {}
    lemma_sum_accounting(m.slabs@, m.capacity());
}

} // verus!
