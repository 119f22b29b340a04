# slab_allocator

A slab allocator in the style of the Linux SLUB allocator, for a bare-metal
x86_64 kernel, verified with Verus.

- Nine size classes, 8 B to 2 048 B (powers of two), one cache each; a cache
  hands out its free objects last-in first-out and refills from a shared bump
  region, at most 4 096 bytes at a time.
- Slab colouring: each refill shifts the slab start by `color_next`, which
  then advances by `max(64, object_size)` and wraps after four steps, also
  when no object fits at the current offset; a refill that finds the bump
  region exhausted (no object fits even at offset 0) changes nothing.
- Requests above 2 048 B are served from the bump region directly and never
  reused.
- Statistics per cache (allocations, deallocations, live objects, colour) and
  for the bump region.

The library works on addresses as plain numbers; free lists are kept in the
caches' own vectors. Its contracts state the result of every operation
exactly, and its invariant (`AllocatorView::wf`) gives that the blocks it
owns never overlap and lie in the regions handed to `init`.

## Layout

- `src/slab/` — the allocator: `layout` (size and alignment of a request),
  `align` (`align_up`), `classes` (size classes), `cache` (one cache),
  `allocator` (the allocator and its invariant), `preserve` (proofs that each
  operation keeps the invariant), `laws` (properties across operations),
  `history` (properties of whole sequences of calls).
- `src/vga_buffer.rs` — the 80x25 text terminal: cursor, wrapping, scrolling.
- `src/memory.rs` — the physical-frame allocator over the boot memory map.
- `tests/` — unit tests and scenarios.
- `app/` — the kernel around the library: boot entry, page tables and heap
  mapping, the global allocator, the VGA hardware console.
