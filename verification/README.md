# allocrs

Memory allocators whose bookkeeping is verified with Verus: a bump
allocator, a first-fit free-list allocator that keeps its free list sorted
and merges neighbouring free regions, a fixed-size-block allocator in front
of it, a binary buddy allocator, and slab object caches.

The allocators work on addresses: they are handed a heap (or, for slabs, a
page) by address and hand out addresses within it. Their free lists are
kept in ordinary collections, so every operation is safe Rust whose effect
is stated in its contract and proved.

## Layout

- `src/` — the verified library.
  - `align.rs` — powers of two and aligning addresses up.
  - `regions.rs` — sorted free regions: coverage, totals, and the fact that
    well-formed regions are determined by the bytes they cover.
  - `bump.rs`, `linked_list.rs`, `fixed_size_block.rs`, `buddy.rs`,
    `slab.rs` — the allocators.
- `tests/` — tests of the library.
- `app/` — benchmarks, and what needs the operating system or `unsafe`
  code: mapping heaps and pages with `mmap`, and the spinlock wrapper
  `Locked` that gives shared access to an allocator.
