//! The router: one pool per supported size class, a classifier that rounds
//! each request to its class, and delegation to the backing allocator for
//! everything outside the classes.

use vstd::prelude::*;

verus! {

use core::ops::Range;
use crate::AllocError;
use crate::backing::BackingAllocator;
use crate::manager::{SlabManager, first_free, owner_of};
use vstd::arithmetic::power::pow;
use vstd::arithmetic::power2::{
    pow2,
    is_pow2,
    is_pow2_equiv,
    lemma_pow2_adds,
    lemma_pow2_strictly_increases,
    lemma2_to64,
};
use vstd::arithmetic::div_mod::{
    lemma_fundamental_div_mod,
    lemma_mod_multiples_basic,
    lemma_mul_mod_noop_left,
};

/// Least power of two that is at least `n` (and at least 1).
pub open spec fn spec_next_pow2(n: nat) -> nat
    decreases n,
{
    if n <= 1 {
        1
    } else {
        2 * spec_next_pow2((n + 1) / 2)
    }
}

/// The size class serving a request: the larger of the rounded-up size
/// and the alignment.
pub open spec fn spec_class(size: nat, align: nat) -> nat {
    if spec_next_pow2(size) >= align {
        spec_next_pow2(size)
    } else {
        align
    }
}

/// Is `c` one of the six supported size classes?
pub open spec fn is_supported_class(c: nat) -> bool {
    c == 64 || c == 128 || c == 256 || c == 512 || c == 1024 || c == 2048
}

/// The rounded size is a power of two, no smaller than the request.
pub proof fn lemma_next_pow2(n: nat)
    ensures
        spec_next_pow2(n) >= n,
        spec_next_pow2(n) >= 1,
        is_pow2(spec_next_pow2(n) as int),
    decreases n,
{
    if n <= 1 {
        assert(is_pow2(1int)) by {
            reveal(is_pow2);
        }
    } else {
        lemma_next_pow2((n + 1) / 2);
        let h = spec_next_pow2((n + 1) / 2);
        assert(is_pow2(2 * h as int)) by {
            reveal(is_pow2);
        }
    }
}

/// No smaller power of two covers `n`.
pub proof fn lemma_next_pow2_least(n: nat, p: nat)
    requires
        is_pow2(p as int),
        p >= n,
    ensures
        spec_next_pow2(n) <= p,
    decreases n,
{
    if n <= 1 {
        assert(p >= 1) by {
            reveal(is_pow2);
        }
    } else {
        assert(p % 2 == 0 && is_pow2(p as int / 2) && p as int / 2 == (p / 2) as int) by {
            reveal(is_pow2);
        }
        lemma_next_pow2_least((n + 1) / 2, p / 2);
    }
}

/// Distinct powers of two are at least a factor of two apart.
pub proof fn lemma_pow2_gap(a: nat, b: nat)
    requires
        is_pow2(a as int),
        is_pow2(b as int),
        a < b,
    ensures
        2 * a <= b,
    decreases a,
{
    reveal(is_pow2);
    if a > 1 {
        lemma_pow2_gap(a / 2, b / 2);
    }
}

/// The six supported classes are powers of two.
pub proof fn lemma_supported_pow2()
    ensures
        is_pow2(64int),
        is_pow2(128int),
        is_pow2(256int),
        is_pow2(512int),
        is_pow2(1024int),
        is_pow2(2048int),
{
    lemma2_to64();
    vstd::arithmetic::power2::lemma_pow2(6);
    vstd::arithmetic::power2::lemma_pow2(7);
    vstd::arithmetic::power2::lemma_pow2(8);
    vstd::arithmetic::power2::lemma_pow2(9);
    vstd::arithmetic::power2::lemma_pow2(10);
    vstd::arithmetic::power2::lemma_pow2(11);
    assert(pow(2, 6nat) == 64int && pow(2, 7nat) == 128int && pow(2, 8nat) == 256int && pow(
    2, 9nat) == 512int && pow(2, 10nat) == 1024int && pow(2, 11nat) == 2048int);
    is_pow2_equiv(64int);
    is_pow2_equiv(128int);
    is_pow2_equiv(256int);
    is_pow2_equiv(512int);
    is_pow2_equiv(1024int);
    is_pow2_equiv(2048int);
}

/// Law: the class serving a request is never smaller than the requested
/// size, nor than the requested alignment.
pub proof fn lemma_class_covers(size: nat, align: nat)
    ensures
        spec_class(size, align) >= size,
        spec_class(size, align) >= align,
{
    lemma_next_pow2(size);
}

/// A smaller power of two divides a larger one.
pub proof fn lemma_pow2_divides(a: nat, b: nat)
    requires
        is_pow2(a as int),
        is_pow2(b as int),
        a <= b,
    ensures
        b as int % (a as int) == 0,
{
    is_pow2_equiv(a as int);
    is_pow2_equiv(b as int);
    let i = choose|i: nat| pow(2, i) == a as int;
    let j = choose|j: nat| pow(2, j) == b as int;
    assert(pow2(i) == a && pow2(j) == b);
    if j < i {
        lemma_pow2_strictly_increases(j, i);
    }
    lemma_pow2_adds((j - i) as nat, i);
    vstd::arithmetic::power2::lemma_pow2_pos(i);
    lemma_mod_multiples_basic(pow2((j - i) as nat) as int, a as int);
}

/// What is a multiple of `b` is a multiple of any divisor `a` of `b`.
pub proof fn lemma_mod_zero_trans(x: int, a: int, b: int)
    requires
        1 <= a,
        1 <= b,
        x % b == 0,
        b % a == 0,
    ensures
        x % a == 0,
{
    lemma_fundamental_div_mod(x, b);
    lemma_mul_mod_noop_left(b, x / b, a);
    assert(0int % a == 0) by (nonlinear_arith)
        requires
            a >= 1,
    ;
}

/// Round a request size up to the next power of two.
fn next_pow2(size: usize) -> (r: usize)
    requires
        size <= 2048,
    ensures
        r == spec_next_pow2(size as nat),
{
    proof {
        lemma_next_pow2(size as nat);
        lemma_supported_pow2();
        lemma_next_pow2_least(size as nat, 2048);
        assert(is_pow2(1int)) by {
            reveal(is_pow2);
        }
    }
    let mut p: usize = 1;
    while p < size
        invariant
            1 <= p,
            p <= spec_next_pow2(size as nat),
            is_pow2(p as int),
            size <= 2048,
            spec_next_pow2(size as nat) <= 2048,
        decreases 2048 - p,
    {
        proof {
            lemma_next_pow2(size as nat);
            lemma_pow2_gap(p as nat, spec_next_pow2(size as nat));
            assert(is_pow2(2 * p as int)) by {
                reveal(is_pow2);
            }
        }
        p = 2 * p;
    }
    proof {
        lemma_next_pow2_least(size as nat, p as nat);
    }
    p
}

/// Compute the supported size class serving a `(size, align)` request, or
/// nothing when the request must go to the backing allocator.
pub fn size_class(size: usize, align: usize) -> (r: Option<usize>)
    ensures
        r matches Some(c) ==> c == spec_class(size as nat, align as nat) && is_supported_class(
            c as nat,
        ),
        r is None ==> !is_supported_class(spec_class(size as nat, align as nat)),
{
    if size > 2048 || align > 2048 {
        proof {
            lemma_next_pow2(size as nat);
        }
        return None;
    }
    let p = next_pow2(size);
    let c = if p >= align {
        p
    } else {
        align
    };
    if c == 64 || c == 128 || c == 256 || c == 512 || c == 1024 || c == 2048 {
        Some(c)
    } else {
        None
    }
}

/// The top-level allocator: one slab pool per supported size class, and
/// the backing allocator for every other request.
pub struct SlabAllocator<A: BackingAllocator> {
    /// Pool of 64-byte objects.
    pub slab_64: SlabManager<A>,
    /// Pool of 128-byte objects.
    pub slab_128: SlabManager<A>,
    /// Pool of 256-byte objects.
    pub slab_256: SlabManager<A>,
    /// Pool of 512-byte objects.
    pub slab_512: SlabManager<A>,
    /// Pool of 1024-byte objects.
    pub slab_1024: SlabManager<A>,
    /// Pool of 2048-byte objects.
    pub slab_2048: SlabManager<A>,
    /// The backing allocator used directly for unsupported classes.
    pub inner: A,
}

impl<A: BackingAllocator> SlabAllocator<A> {
    /// Every pool is well formed and serves its own class.
    pub open spec fn wf(&self) -> bool {
        &&& self.slab_64.wf() && self.slab_64.object_size == 64
        &&& self.slab_128.wf() && self.slab_128.object_size == 128
        &&& self.slab_256.wf() && self.slab_256.object_size == 256
        &&& self.slab_512.wf() && self.slab_512.object_size == 512
        &&& self.slab_1024.wf() && self.slab_1024.object_size == 1024
        &&& self.slab_2048.wf() && self.slab_2048.object_size == 2048
        &&& self.inner.wf()
    }

    /// The pool serving class `c` (meaningful for supported classes).
    pub open spec fn pool(&self, c: nat) -> SlabManager<A> {
        if c == 64 {
            self.slab_64
        } else if c == 128 {
            self.slab_128
        } else if c == 256 {
            self.slab_256
        } else if c == 512 {
            self.slab_512
        } else if c == 1024 {
            self.slab_1024
        } else {
            self.slab_2048
        }
    }

    /// Cached count of free objects in the pool of the given class.
    pub fn remaining_object_count(&self, object_size: usize) -> (r: usize)
        requires
            is_supported_class(object_size as nat),
        ensures
            r == self.pool(object_size as nat).remaining_object_count,
    {
        if object_size == 64 {
            self.slab_64.remaining_object_count()
        } else if object_size == 128 {
            self.slab_128.remaining_object_count()
        } else if object_size == 256 {
            self.slab_256.remaining_object_count()
        } else if object_size == 512 {
            self.slab_512.remaining_object_count()
        } else if object_size == 1024 {
            self.slab_1024.remaining_object_count()
        } else {
            self.slab_2048.remaining_object_count()
        }
    }

    /// Issue a memory range of at least `size` bytes, aligned to `align`:
    /// from the pool of the matching class, or from the backing allocator
    /// when no class matches. Fails only when a new page is needed and the
    /// backing allocator cannot supply one.
    pub fn allocate(&mut self, size: usize, align: usize) -> (r: Result<Range<usize>, AllocError>)
        requires
            old(self).wf(),
            1 <= size,
            is_pow2(align as int),
        ensures
            final(self).wf(),
            ({
                let c = spec_class(size as nat, align as nat);
                if is_supported_class(c) {
                    &&& final(self).inner == old(self).inner
                    &&& (forall|c2: nat|
                        is_supported_class(c2) && c2 != c ==> (#[trigger] final(self).pool(c2))
                            == old(self).pool(c2))
                    &&& (old(self).pool(c).remaining_object_count > 0 ==> r is Ok)
                    &&& match r {
                        Ok(range) => {
                            &&& range.end == range.start + c
                            &&& range.start != 0
                            &&& range.start as int % (align as int) == 0
                            &&& final(self).pool(c).remaining_object_count + 1 == old(self).pool(
                                c,
                            ).remaining_object_count + (if old(self).pool(
                                c,
                            ).remaining_object_count == 0 {
                                old(self).pool(c).capacity()
                            } else {
                                0nat
                            })
                            &&& (old(self).pool(c).remaining_object_count > 0 ==> ({
                                let s = old(self).pool(c).slabs@;
                                let j = first_free(s);
                                &&& final(self).pool(c).slabs@ == s.update(
                                    j,
                                    s[j].after_issue(),
                                )
                                &&& range.start == s[j].slot_addr(s[j].lowest_free_slot())
                            }))
                            &&& (old(self).pool(c).remaining_object_count == 0 ==> ({
                                let ns = final(self).pool(c).slabs@.last();
                                &&& final(self).pool(c).slabs@ == old(self).pool(c).slabs@.push(ns)
                                &&& range.start == ns.base
                                &&& !old(self).pool(c).inner.live().contains(ns.base as int)
                            }))
                        },
                        Err(_) => {
                            &&& final(self).pool(c).slabs@ == old(self).pool(c).slabs@
                            &&& final(self).pool(c).remaining_object_count == old(self).pool(
                                c,
                            ).remaining_object_count
                        },
                    }
                } else {
                    &&& (forall|c2: nat|
                        is_supported_class(c2) ==> (#[trigger] final(self).pool(c2)) == old(
                            self,
                        ).pool(c2))
                    &&& match r {
                        Ok(range) => {
                            &&& range.end == range.start + size
                            &&& range.start != 0
                            &&& range.start as int % (align as int) == 0
                            &&& !old(self).inner.live().contains(range.start as int)
                            &&& final(self).inner.live() == old(self).inner.live().insert(
                                range.start as int,
                            )
                        },
                        Err(_) => final(self).inner.live() == old(self).inner.live(),
                    }
                }
            }),
    {
        let cls = size_class(size, align);
        match cls {
            Some(c) => {
                let r = if c == 64 {
                    self.slab_64.next_object()
                } else if c == 128 {
                    self.slab_128.next_object()
                } else if c == 256 {
                    self.slab_256.next_object()
                } else if c == 512 {
                    self.slab_512.next_object()
                } else if c == 1024 {
                    self.slab_1024.next_object()
                } else {
                    self.slab_2048.next_object()
                };
                proof {
                    lemma_supported_pow2();
                    lemma_next_pow2(size as nat);
                    if r is Ok {
                        let range = r->Ok_0;
                        assert(align >= 1) by {
                            reveal(is_pow2);
                        }
                        lemma_pow2_divides(align as nat, c as nat);
                        lemma_mod_zero_trans(range.start as int, align as int, c as int);
                    }
                }
                r
            },
            None => {
                proof {
                    assert(align >= 1) by {
                        reveal(is_pow2);
                    }
                }
                match self.inner.acquire(size, align) {
                    Ok(base) => Ok(base..(base + size)),
                    Err(e) => Err(e),
                }
            },
        }
    }

    /// Release a range issued by `allocate`, identified by its start
    /// address and the same `(size, align)` pair it was issued under: back
    /// to the pool of the matching class, or to the backing allocator.
    pub fn deallocate(&mut self, addr: usize, size: usize, align: usize)
        requires
            old(self).wf(),
            1 <= size,
            is_pow2(align as int),
            ({
                let c = spec_class(size as nat, align as nat);
                if is_supported_class(c) {
                    old(self).pool(c).can_return(addr)
                } else {
                    old(self).inner.live().contains(addr as int)
                }
            }),
        ensures
            final(self).wf(),
            ({
                let c = spec_class(size as nat, align as nat);
                if is_supported_class(c) {
                    &&& final(self).inner == old(self).inner
                    &&& (forall|c2: nat|
                        is_supported_class(c2) && c2 != c ==> (#[trigger] final(self).pool(c2))
                            == old(self).pool(c2))
                    &&& final(self).pool(c).remaining_object_count == old(self).pool(
                        c,
                    ).remaining_object_count + 1
                    &&& ({
                        let s = old(self).pool(c).slabs@;
                        let k = owner_of(s, addr);
                        &&& 0 <= k < s.len()
                        &&& final(self).pool(c).slabs@ == s.update(
                            k,
                            s[k].after_release(s[k].slot_of(addr)),
                        )
                    })
                } else {
                    &&& (forall|c2: nat|
                        is_supported_class(c2) ==> (#[trigger] final(self).pool(c2)) == old(
                            self,
                        ).pool(c2))
                    &&& final(self).inner.live() == old(self).inner.live().remove(addr as int)
                }
            }),
    {
        let cls = size_class(size, align);
        match cls {
            Some(c) => {
                if c == 64 {
                    self.slab_64.return_object(addr);
                } else if c == 128 {
                    self.slab_128.return_object(addr);
                } else if c == 256 {
                    self.slab_256.return_object(addr);
                } else if c == 512 {
                    self.slab_512.return_object(addr);
                } else if c == 1024 {
                    self.slab_1024.return_object(addr);
                } else {
                    self.slab_2048.return_object(addr);
                }
            },
            None => {
                self.inner.release(addr, size, align);
            },
        }
    }
}

impl<A: BackingAllocator + Copy> SlabAllocator<A> {
    /// A router with one fresh, empty pool per supported class, all
    /// sharing the given backing allocator.
    pub fn new_in(allocator: A) -> (r: SlabAllocator<A>)
        requires
            allocator.wf(),
        ensures
            r.wf(),
            r.inner == allocator,
            forall|c: nat|
                is_supported_class(c) ==> (#[trigger] r.pool(c)).remaining_object_count == 0
                    && r.pool(c).slabs@.len() == 0,
    {
        proof {
            lemma_supported_pow2();
        }
        SlabAllocator {
            slab_64: SlabManager::new_in(64, allocator),
            slab_128: SlabManager::new_in(128, allocator),
            slab_256: SlabManager::new_in(256, allocator),
            slab_512: SlabManager::new_in(512, allocator),
            slab_1024: SlabManager::new_in(1024, allocator),
            slab_2048: SlabManager::new_in(2048, allocator),
            inner: allocator,
        }
    }
}

} // verus!
