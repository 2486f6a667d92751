//! The backing allocator: the external collaborator that supplies and
//! reclaims raw memory blocks, modeled by their base addresses.

use vstd::prelude::*;

verus! {

use crate::AllocError;

/// A supplier of raw memory blocks, identified by base address.
///
/// `live()` is the set of base addresses currently on loan. `acquire`
/// hands out a fresh, aligned, nonzero base address whose block fits in
/// the address space; `release` gives one back. An implementation may
/// fail any `acquire` (exhaustion), never a `release`.
pub trait BackingAllocator: Sized {
    /// The allocator's own consistency condition, preserved by every
    /// operation.
    spec fn wf(&self) -> bool;

    /// Base addresses of the blocks currently acquired and not yet
    /// released.
    spec fn live(&self) -> Set<int>;

    /// Acquire a block of `size` bytes whose base address is a multiple
    /// of `align`.
    fn acquire(&mut self, size: usize, align: usize) -> (r: Result<usize, AllocError>)
        requires
            old(self).wf(),
            1 <= size,
            1 <= align,
        ensures
            final(self).wf(),
            match r {
                Ok(base) => {
                    &&& base != 0
                    &&& base as int % align as int == 0
                    &&& base + size <= usize::MAX
                    &&& !old(self).live().contains(base as int)
                    &&& final(self).live() == old(self).live().insert(base as int)
                },
                Err(_) => final(self).live() == old(self).live(),
            },
    ;

    /// Release a previously acquired block, identified by the same base
    /// address, size and alignment that `acquire` returned it under.
    fn release(&mut self, base: usize, size: usize, align: usize)
        requires
            old(self).wf(),
            old(self).live().contains(base as int),
        ensures
            final(self).wf(),
            final(self).live() == old(self).live().remove(base as int),
    ;
}

/// A watermark-style backing allocator: hands out addresses from a rising
/// watermark and never reuses a released block's address. Every address it
/// returns is therefore fresh.
#[derive(Clone, Copy)]
pub struct BumpBacking {
    /// The next address candidate; everything below is spoken for.
    pub next: usize,
    /// Base addresses on loan, for the `live()` model.
    pub loaned: Ghost<Set<int>>,
}

impl BumpBacking {
    /// A fresh allocator with no blocks on loan.
    pub fn new() -> (r: BumpBacking)
        ensures
            r.wf(),
            r.live() == Set::<int>::empty(),
    {
        BumpBacking { next: 1, loaned: Ghost(Set::empty()) }
    }
}

impl BackingAllocator for BumpBacking {
    open spec fn wf(&self) -> bool {
        &&& self.next >= 1
        &&& forall|a: int| #[trigger] self.loaned@.contains(a) ==> 0 < a < self.next
    }

    open spec fn live(&self) -> Set<int> {
        self.loaned@
    }

    fn acquire(&mut self, size: usize, align: usize) -> (r: Result<usize, AllocError>) {
        let rem = self.next % align;
        let pad = if rem == 0 {
            0
        } else {
            align - rem
        };
        if pad > usize::MAX - self.next {
            return Err(AllocError);
        }
        let base = self.next + pad;
        if size > usize::MAX - base {
            return Err(AllocError);
        }
        proof {
            if rem != 0 {
                vstd::arithmetic::div_mod::lemma_fundamental_div_mod(
                    self.next as int,
                    align as int,
                );
                assert(base as int == (self.next as int / align as int + 1) * align as int)
                    by (nonlinear_arith)
                    requires
                        align >= 1,
                        rem == self.next as int % align as int,
                        self.next as int == align as int * (self.next as int / align as int)
                            + rem,
                        base == self.next + (align - rem),
                ;
                vstd::arithmetic::div_mod::lemma_mod_multiples_basic(
                    self.next as int / align as int + 1,
                    align as int,
                );
            }
        }
        self.next = base + size;
        proof {
            self.loaned@ = self.loaned@.insert(base as int);
        }
        Ok(base)
    }

    fn release(&mut self, base: usize, size: usize, align: usize) {
        proof {
            self.loaned@ = self.loaned@.remove(base as int);
        }
    }
}

} // verus!
