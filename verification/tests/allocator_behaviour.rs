use slab_allocator::slab::{align_up, Layout, SlabAllocator, SlabCache};

fn heap_allocator(size: usize) -> (SlabAllocator, Box<[u8]>, usize) {
    let heap: Box<[u8]> = vec![0u8; size].into_boxed_slice();
    let start = heap.as_ptr() as usize;
    let mut a = SlabAllocator::new();
    a.init(start, size);
    (a, heap, start)
}

#[test]
fn layout_rejects_bad_alignment_and_size() {
    assert!(Layout::from_size_align(8, 0).is_err());
    assert!(Layout::from_size_align(8, 3).is_err());
    assert!(Layout::from_size_align(8, 12).is_err());
    assert!(Layout::from_size_align(usize::MAX, 8).is_err());
    assert!(Layout::from_size_align(isize::MAX as usize, 1).is_ok());
    assert!(Layout::from_size_align(isize::MAX as usize, 2).is_err());
    let l = Layout::from_size_align(24, 16).unwrap();
    assert_eq!(l.size(), 24);
    assert_eq!(l.align(), 16);
}

#[test]
fn request_goes_to_smallest_fitting_class() {
    let (mut a, _heap, _) = heap_allocator(65_536);
    // 9 bytes need the 16-byte class.
    let p = a.alloc_test(Layout::from_size_align(9, 1).unwrap());
    assert!(p != 0);
    assert_eq!(a.stats().caches[1].allocs, 1);
    // 1 byte with 256-byte alignment needs the 256-byte class.
    let q = a.alloc_test(Layout::from_size_align(1, 256).unwrap());
    assert_eq!(q % 256, 0);
    assert_eq!(a.stats().caches[5].allocs, 1);
    // 2048 bytes still fit a class; 2049 do not.
    a.alloc_test(Layout::from_size_align(2048, 8).unwrap());
    assert_eq!(a.stats().caches[8].allocs, 1);
    a.alloc_test(Layout::from_size_align(2049, 8).unwrap());
    assert_eq!(a.stats().oversized_allocs, 1);
}

#[test]
fn first_object_is_the_last_one_carved() {
    let (mut a, _heap, start) = heap_allocator(65_536);
    let p = a.alloc_test(Layout::from_size_align(8, 8).unwrap());
    let base = align_up(start, 8);
    // One refill carves 4096 bytes, 512 objects of 8 bytes; the free list
    // hands out the last one carved first.
    assert_eq!(p, base + 511 * 8);
    assert_eq!(a.stats().bump_free_bytes, 65_536 - (base - start) - 4096);
    assert_eq!(a.stats().caches[0].color_next, 64);
}

#[test]
fn allocations_are_aligned_disjoint_and_inside_the_heap() {
    let (mut a, _heap, start) = heap_allocator(65_536);
    let sizes = [(8, 8), (24, 8), (64, 64), (100, 4), (512, 512), (3000, 16), (5, 128)];
    let mut blocks: Vec<(usize, usize)> = Vec::new();
    for round in 0..20 {
        for &(size, align) in &sizes {
            let l = Layout::from_size_align(size, align).unwrap();
            let p = a.alloc_test(l);
            if p == 0 {
                continue;
            }
            assert_eq!(p % align, 0, "round {}", round);
            assert!(p >= start && p + size <= start + 65_536);
            blocks.push((p, size));
        }
    }
    for (i, &(p, n)) in blocks.iter().enumerate() {
        for &(q, m) in &blocks[i + 1..] {
            assert!(p + n <= q || q + m <= p, "blocks overlap");
        }
    }
}

#[test]
fn freed_object_is_handed_out_first() {
    let (mut a, _heap, _) = heap_allocator(65_536);
    let l = Layout::from_size_align(32, 8).unwrap();
    let x = a.alloc_test(l);
    let y = a.alloc_test(l);
    assert!(x != y);
    let before = a.stats().bump_free_bytes;
    a.dealloc_test(x, l);
    // A layout of the same class gets the freed object back.
    let z = a.alloc_test(Layout::from_size_align(17, 1).unwrap());
    assert_eq!(z, x);
    assert_eq!(a.stats().bump_free_bytes, before);
    assert_eq!(a.stats().caches[2].live, 2);
}

#[test]
fn oversized_blocks_are_never_reused() {
    let (mut a, _heap, _) = heap_allocator(65_536);
    let l = Layout::from_size_align(5000, 8).unwrap();
    let p = a.alloc_test(l);
    assert!(p != 0);
    let free_after_first = a.stats().bump_free_bytes;
    a.dealloc_test(p, l);
    assert_eq!(a.stats().bump_free_bytes, free_after_first);
    assert_eq!(a.stats().oversized_allocs, 1);
    let q = a.alloc_test(l);
    assert!(q >= p + 5000);
    assert_eq!(a.stats().oversized_allocs, 2);
}

#[test]
fn exhausted_memory_gives_null() {
    let (mut a, _heap, _) = heap_allocator(1000);
    let big = Layout::from_size_align(4096, 8).unwrap();
    assert_eq!(a.alloc_test(big), 0);
    assert_eq!(a.stats().oversized_allocs, 0);
    // The 2048-byte class needs one object of 2048 bytes: it does not fit.
    let l = Layout::from_size_align(2048, 8).unwrap();
    assert_eq!(a.alloc_test(l), 0);
    assert_eq!(a.stats().caches[8].allocs, 0);
    // A refill that carves nothing leaves the colour where it was.
    assert_eq!(a.stats().caches[8].color_next, 0);
    assert_eq!(a.stats().bump_free_bytes, 1000);
}

#[test]
fn uninitialized_allocator_gives_null_and_changes_nothing() {
    let mut a = SlabAllocator::new();
    let l = Layout::from_size_align(8, 8).unwrap();
    assert_eq!(a.alloc_test(l), 0);
    assert_eq!(a.stats().caches[0].allocs, 0);
    assert_eq!(a.stats().caches[0].color_next, 0);
    assert_eq!(a.stats().bump_free_bytes, 0);
}

#[test]
fn slab_colour_cycles_through_four_offsets() {
    let (mut a, _heap, _) = heap_allocator(1 << 20);
    let l = Layout::from_size_align(8, 8).unwrap();
    let mut colours = Vec::new();
    // Each refill of the 8-byte class carves 512 objects.
    for _ in 0..5 {
        for _ in 0..512 {
            assert!(a.alloc_test(l) != 0);
        }
        colours.push(a.stats().caches[0].color_next);
    }
    assert_eq!(colours, vec![64, 128, 192, 0, 64]);
}

#[test]
fn live_count_tracks_outstanding_objects() {
    let (mut a, _heap, _) = heap_allocator(65_536);
    let l = Layout::from_size_align(128, 8).unwrap();
    let ptrs: Vec<usize> = (0..10).map(|_| a.alloc_test(l)).collect();
    for &p in &ptrs[..4] {
        a.dealloc_test(p, l);
    }
    let s = a.stats().caches[4];
    assert_eq!((s.allocs, s.deallocs, s.live), (10, 4, 6));
}

#[test]
fn overflow_is_reported_before_allocating() {
    let mut a = SlabAllocator::new();
    a.init(usize::MAX - 100, 100);
    let small = Layout::from_size_align(8, 8).unwrap();
    let aligned = Layout::from_size_align(4096, 4096).unwrap();
    assert!(!a.alloc_overflows(&small));
    assert!(a.alloc_overflows(&aligned));
}

#[test]
fn cache_stats_start_empty() {
    let c = SlabCache::new(16);
    let s = c.stats();
    assert_eq!((s.object_size, s.allocs, s.deallocs, s.live), (16, 0, 0, 0));
    assert_eq!((s.color_next, s.color_step), (0, 64));
    assert_eq!(SlabCache::new(1024).stats().color_step, 1024);
}

#[test]
fn align_up_rounds_to_power_of_two() {
    assert_eq!(align_up(5, 8), 8);
    assert_eq!(align_up(16, 8), 16);
    assert_eq!(align_up(4097, 4096), 8192);
    assert_eq!(align_up(7, 1), 7);
}

#[test]
fn one_refill_moves_the_bump_pointer_a_bounded_distance() {
    let (mut a, _heap, _) = heap_allocator(1 << 20);
    let l = Layout::from_size_align(64, 8).unwrap();
    let mut free = a.stats().bump_free_bytes;
    for _ in 0..4 {
        // The 64-byte class carves 64 objects per refill.
        for _ in 0..64 {
            assert!(a.alloc_test(l) != 0);
        }
        let now = a.stats().bump_free_bytes;
        assert!(free - now <= 63 + 3 * 64 + 4096);
        free = now;
    }
}

#[test]
fn counters_count_successful_calls_per_class() {
    let (mut a, _heap, _) = heap_allocator(8192);
    let small = Layout::from_size_align(16, 16).unwrap();
    let big = Layout::from_size_align(3000, 8).unwrap();
    let p = a.alloc_test(small);
    let q = a.alloc_test(small);
    let b1 = a.alloc_test(big);
    let b2 = a.alloc_test(big);
    let b3 = a.alloc_test(big);
    a.dealloc_test(p, small);
    a.dealloc_test(b1, big);
    let s = a.stats();
    assert!(q != 0 && b1 != 0);
    let big_successes = [b1, b2, b3].iter().filter(|&&x| x != 0).count();
    assert_eq!((s.caches[1].allocs, s.caches[1].deallocs, s.caches[1].live), (2, 1, 1));
    assert_eq!(s.oversized_allocs, big_successes);
}

#[test]
fn colour_keeps_cycling_while_an_object_fits_at_offset_zero() {
    let heap: Box<[u8]> = vec![0u8; 4096 + 100 + 64].into_boxed_slice();
    let start = align_up(heap.as_ptr() as usize, 64);
    let mut a = SlabAllocator::new();
    a.init(start, 4096 + 100);
    let l = Layout::from_size_align(64, 64).unwrap();
    // The first slab holds 64 objects of 64 bytes.
    for _ in 0..64 {
        assert!(a.alloc_test(l) != 0);
    }
    assert_eq!(a.stats().caches[3].color_next, 64);
    // 100 bytes are left: one object fits at offset 0, none at 64, 128 or
    // 192. Each failed refill still steps the colour.
    assert_eq!(a.alloc_test(l), 0);
    assert_eq!(a.stats().caches[3].color_next, 128);
    assert_eq!(a.alloc_test(l), 0);
    assert_eq!(a.stats().caches[3].color_next, 192);
    assert_eq!(a.alloc_test(l), 0);
    assert_eq!(a.stats().caches[3].color_next, 0);
    // Back at offset 0 the object fits.
    assert_eq!(a.alloc_test(l), start + 4096);
    assert_eq!(a.stats().caches[3].allocs, 65);
    assert_eq!(a.stats().caches[3].color_next, 64);
    assert_eq!(a.stats().bump_free_bytes, 100 - 64);
    // Now not even one object fits: the region is exhausted and nothing changes.
    assert_eq!(a.alloc_test(l), 0);
    assert_eq!(a.stats().caches[3].color_next, 64);
}
