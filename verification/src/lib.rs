//! A slab allocator over page-sized memory blocks.
//!
//! Memory is modeled as plain addresses: a backing allocator hands out
//! aligned base addresses, a [`Slab`](slab::Slab) partitions one such
//! page into equal object slots tracked by a free bitmap, a
//! [`SlabManager`](manager::SlabManager) grows a pool of slabs of one object
//! size, and a [`SlabAllocator`](router::SlabAllocator) dispatches requests
//! to the pool of the matching size class or to the backing allocator.

use vstd::prelude::*;

pub mod backing;
pub mod bits;
pub mod manager;
pub mod router;
pub mod slab;

verus! {

/// The single error of this library: the backing allocator could not
/// supply a memory block.
#[derive(Clone, Copy, Debug, PartialEq, Eq, Structural)]
pub struct AllocError;

} // verus!
