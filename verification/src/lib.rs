use vstd::prelude::*;

pub mod align;
pub mod regions;
pub mod linked_list;
pub mod buddy;
pub mod bump;
pub mod fixed_size_block;
pub mod slab;

verus! {

/// Size in bytes of every heap managed by the allocators of this crate (1 MiB).
pub const HEAP_SIZE: usize = 1048576;

/// Size in bytes of an operating-system page (4 KiB).
pub const PAGE_SIZE: usize = 4096;

} // verus!
