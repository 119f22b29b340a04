//! The multi-size-class slab allocator over one bump region.
use vstd::prelude::*;
use crate::slab::align::{align_up, lemma_pow2_divides, round_up};
use crate::slab::cache::{CacheStats, CacheView, SlabCache};
use crate::slab::classes::{
    class_of, lemma_class_of_smallest_fit, lemma_slab_size_facts, slab_size, slab_size_at, LINK_SIZE,
    NUM_CLASSES,
};
use crate::slab::preserve::{lemma_allocate, lemma_dealloc_keeps_wf, lemma_init_keeps_wf};
use crate::slab::layout::Layout;

verus! {

/// Whether the byte ranges `[a, a + la)` and `[b, b + lb)` share no byte.
pub open spec fn disjoint(a: int, la: int, b: int, lb: int) -> bool {
    la <= 0 || lb <= 0 || a + la <= b || b + lb <= a
}

/// Whether every byte of `[a, a + len)` belongs to `s`.
pub open spec fn range_in(s: Set<int>, a: int, len: int) -> bool {
    forall|x: int| a <= x < a + len ==> #[trigger] s.contains(x)
}

/// The bytes of `[a, a + len)`.
pub open spec fn range_set(a: int, len: int) -> Set<int> {
    Set::new(|x: int| a <= x < a + len)
}

/// The object size that a layout `(size, align)` asks of a size class: at
/// least the size, the alignment and room for a free-list link.
pub open spec fn request_size(l: (usize, usize)) -> int {
    let m = if l.0 >= l.1 { l.0 as int } else { l.1 as int };
    if m >= LINK_SIZE { m } else { LINK_SIZE as int }
}

/// The number of bytes reserved for a layout: the object size of its class,
/// or the requested size itself when it is served from the bump region.
pub open spec fn block_len(l: (usize, usize)) -> int {
    match class_of(request_size(l)) {
        Some(i) => slab_size(i as int),
        None => l.0 as int,
    }
}

/// Global statistics snapshot returned by [`SlabAllocator::stats`].
#[derive(Clone, Debug)]
pub struct AllocatorStats {
    /// Per-cache statistics, one entry per size class.
    pub caches: [CacheStats; 9],
    /// Number of allocations served directly from the bump region (size > 2 048 B).
    pub oversized_allocs: usize,
    /// Bytes still available in the bump region.
    pub bump_free_bytes: usize,
}

/// A multi-size-class slab allocator backed by a contiguous address region.
///
/// One [`SlabCache`] exists per size class. Requests larger than 2 048 bytes
/// are served by a simple bump allocator and are never returned to a cache on
/// deallocation. Addresses are plain numbers; `0` stands for a failed
/// allocation.
pub struct SlabAllocator {
    caches: Vec<SlabCache>,
    bump_next: usize,
    bump_end: usize,
    oversized_allocs: usize,
    /// The blocks `(start, size)` served from the bump region.
    oversized: Ghost<Set<(int, int)>>,
    /// Every address of every region handed to `init`.
    managed: Ghost<Set<int>>,
}

/// The abstract state of a [`SlabAllocator`].
pub struct AllocatorView {
    pub caches: Seq<CacheView>,
    pub bump_next: usize,
    pub bump_end: usize,
    pub oversized_allocs: usize,
    pub oversized: Set<(int, int)>,
    pub managed: Set<int>,
}

impl View for SlabAllocator {
    type V = AllocatorView;

    closed spec fn view(&self) -> AllocatorView {
        AllocatorView {
            caches: self.caches@.map_values(|c: SlabCache| c@),
            bump_next: self.bump_next,
            bump_end: self.bump_end,
            oversized_allocs: self.oversized_allocs,
            oversized: self.oversized@,
            managed: self.managed@,
        }
    }
}

impl AllocatorView {
    /// The state of [`SlabAllocator::new`]: empty caches and an empty bump region.
    pub open spec fn initial() -> AllocatorView {
        AllocatorView {
            caches: Seq::new(NUM_CLASSES as nat, |i: int| CacheView::initial(slab_size(i) as usize)),
            bump_next: 0,
            bump_end: 0,
            oversized_allocs: 0,
            oversized: Set::empty(),
            managed: Set::empty(),
        }
    }

    /// Whether cache `i` holds the object at `a`, free or handed out.
    pub open spec fn in_cache(self, i: int, a: int) -> bool {
        &&& 0 <= i < NUM_CLASSES
        &&& 0 <= a <= usize::MAX
        &&& self.caches[i].holds(a as usize)
    }

    /// Whether `[start, start + len)` is handed out and not returned: an
    /// object of a cache, or a block served from the bump region.
    pub open spec fn is_live(self, start: int, len: int) -> bool {
        ||| exists|i: int|
            0 <= i < NUM_CLASSES && len == slab_size(i) && 0 <= start <= usize::MAX
                && #[trigger] self.caches[i].outstanding.contains(start as usize)
        ||| self.oversized.contains((start, len))
    }

    /// Whether `[start, start + len)` is one of the blocks the allocator owns:
    /// a cache object, free or handed out, or a block served from the bump region.
    pub open spec fn is_held(self, start: int, len: int) -> bool {
        ||| exists|i: int| #[trigger] self.in_cache(i, start) && len == slab_size(i)
        ||| self.oversized.contains((start, len))
    }

    /// The allocator's invariant: every cache is well formed for its class,
    /// the blocks it owns are pairwise disjoint, none of them overlaps the
    /// rest of the bump region, and all lie in the regions handed to `init`.
    pub open spec fn wf(self) -> bool {
        &&& self.caches.len() == NUM_CLASSES
        &&& forall|i: int| 0 <= i < NUM_CLASSES ==> #[trigger] self.caches[i].wf()
        &&& forall|i: int| 0 <= i < NUM_CLASSES ==> #[trigger] self.caches[i].object_size == slab_size(i)
        &&& self.bump_next <= self.bump_end
        &&& forall|x: int| #[trigger] self.managed.contains(x) ==> 0 <= x < usize::MAX
        &&& range_in(self.managed, self.bump_next as int, self.bump_end - self.bump_next)
        &&& forall|i: int, a: int, j: int, b: int|
            #![trigger self.in_cache(i, a), self.in_cache(j, b)]
            self.in_cache(i, a) && self.in_cache(j, b) && !(i == j && a == b)
                ==> disjoint(a, slab_size(i), b, slab_size(j))
        &&& forall|i: int, a: int, o: (int, int)|
            #![trigger self.in_cache(i, a), self.oversized.contains(o)]
            self.in_cache(i, a) && self.oversized.contains(o) ==> disjoint(a, slab_size(i), o.0, o.1)
        &&& forall|o: (int, int), p: (int, int)|
            #![trigger self.oversized.contains(o), self.oversized.contains(p)]
            self.oversized.contains(o) && self.oversized.contains(p) && o != p
                ==> disjoint(o.0, o.1, p.0, p.1)
        &&& forall|i: int, a: int| #[trigger] self.in_cache(i, a) ==> {
            &&& disjoint(a, slab_size(i), self.bump_next as int, self.bump_end - self.bump_next)
            &&& range_in(self.managed, a, slab_size(i))
        }
        &&& forall|o: (int, int)| #[trigger] self.oversized.contains(o) ==> {
            &&& disjoint(o.0, o.1, self.bump_next as int, self.bump_end - self.bump_next)
            &&& range_in(self.managed, o.0, o.1)
            &&& o.1 >= 0
        }
    }

    /// The bytes left in the bump region, as [`SlabAllocator::stats`] reports them.
    pub open spec fn bump_free_bytes(self) -> usize {
        if self.bump_end >= self.bump_next {
            (self.bump_end - self.bump_next) as usize
        } else {
            0
        }
    }

    /// Allocation for layout `l`: from the smallest size class that fits the
    /// request, or, for requests beyond every class, from the bump region at
    /// the next address aligned to `l`'s alignment. `None` when the memory
    /// is exhausted.
    pub open spec fn allocate(self, l: (usize, usize)) -> (AllocatorView, Option<usize>) {
        match class_of(request_size(l)) {
            Some(i) => {
                let (c, b, r) = self.caches[i as int].allocate(self.bump_next, self.bump_end);
                (AllocatorView { caches: self.caches.update(i as int, c), bump_next: b, ..self }, r)
            },
            None => {
                let start = round_up(self.bump_next as int, l.1 as int);
                let end = start + l.0;
                if end > usize::MAX || end > self.bump_end {
                    (self, None)
                } else {
                    (
                        AllocatorView {
                            bump_next: end as usize,
                            oversized_allocs: (self.oversized_allocs + 1) as usize,
                            oversized: self.oversized.insert((start, l.0 as int)),
                            ..self
                        },
                        Some(start as usize),
                    )
                }
            },
        }
    }

    /// Whether allocation for `l` overflows the address arithmetic or a counter.
    pub open spec fn alloc_overflows(self, l: (usize, usize)) -> bool {
        match class_of(request_size(l)) {
            Some(i) => self.caches[i as int].alloc_overflows(self.bump_next, self.bump_end),
            None => {
                ||| self.bump_next + l.1 - 1 > usize::MAX
                ||| (self.allocate(l).1 is Some && self.oversized_allocs == usize::MAX)
            },
        }
    }

    /// Deallocation of `addr`, allocated with layout `l`: returned to the free
    /// list of its size class; blocks served from the bump region are never
    /// reused, so for them nothing changes.
    pub open spec fn deallocate(self, addr: usize, l: (usize, usize)) -> AllocatorView {
        match class_of(request_size(l)) {
            Some(i) => AllocatorView {
                caches: self.caches.update(i as int, self.caches[i as int].dealloc(addr)),
                ..self
            },
            None => self,
        }
    }

    /// Whether `addr` may be returned with layout `l`: it must be an object of
    /// `l`'s size class that is handed out.
    pub open spec fn can_deallocate(self, addr: usize, l: (usize, usize)) -> bool {
        class_of(request_size(l)) matches Some(i) ==> self.caches[i as int].outstanding.contains(addr)
    }
}


impl SlabAllocator {
    /// Creates a new `SlabAllocator` with empty caches and an empty bump region.
    ///
    /// [`init`](SlabAllocator::init) must hand it a region before any
    /// allocation can succeed.
    pub fn new() -> (r: SlabAllocator)
        ensures
            r@ == AllocatorView::initial(),
            r@.wf(),
    {
        let mut caches: Vec<SlabCache> = Vec::new();
        let mut i: usize = 0;
        while i < NUM_CLASSES
            invariant
                i <= NUM_CLASSES,
                caches@.len() == i,
                forall|j: int| 0 <= j < i ==> #[trigger] caches@[j]@ == CacheView::initial(slab_size(j) as usize),
                forall|j: int| 0 <= j < i ==> #[trigger] caches@[j]@.wf(),
            decreases NUM_CLASSES - i,
        {
            proof {
                lemma_slab_size_facts(i as int);
            }
            caches.push(SlabCache::new(slab_size_at(i)));
            i = i + 1;
        }
        let r = SlabAllocator {
            caches,
            bump_next: 0,
            bump_end: 0,
            oversized_allocs: 0,
            oversized: Ghost(Set::empty()),
            managed: Ghost(Set::empty()),
        };
        proof {
            assert(r@.caches =~= AllocatorView::initial().caches);
            let v = r@;
            assert forall|j: int| 0 <= j < NUM_CLASSES implies #[trigger] v.caches[j].wf() by {
                assert(r.caches@[j]@.wf());
            }
            assert forall|j: int, a: int| !#[trigger] v.in_cache(j, a) by {
                if 0 <= j < NUM_CLASSES && 0 <= a <= usize::MAX {
                    assert(!v.caches[j].free.contains(a as usize));
                }
            }
        }
        r
    }

    /// Returns a snapshot of allocator statistics.
    pub fn stats(&self) -> (r: AllocatorStats)
        requires
            self@.wf(),
        ensures
            forall|i: int| 0 <= i < NUM_CLASSES ==> #[trigger] r.caches[i] == self@.caches[i].stats(),
            r.oversized_allocs == self@.oversized_allocs,
            r.bump_free_bytes == self@.bump_free_bytes(),
    {
        proof {
            assert forall|i: int| 0 <= i < NUM_CLASSES implies #[trigger] self.caches@[i]@.wf() by {
                assert(self@.caches[i].wf());
            }
        }
        let caches = [
            self.caches[0].stats(),
            self.caches[1].stats(),
            self.caches[2].stats(),
            self.caches[3].stats(),
            self.caches[4].stats(),
            self.caches[5].stats(),
            self.caches[6].stats(),
            self.caches[7].stats(),
            self.caches[8].stats(),
        ];
        AllocatorStats {
            caches,
            oversized_allocs: self.oversized_allocs,
            bump_free_bytes: self.bump_end.saturating_sub(self.bump_next),
        }
    }

    /// Hands the allocator the region `[start, start + size)` as its bump region.
    ///
    /// The region must not overlap any block the allocator already owns; the
    /// blocks it owns stay where they are.
    pub fn init(&mut self, start: usize, size: usize)
        requires
            old(self)@.wf(),
            start + size <= usize::MAX,
            forall|s: int, n: int| old(self)@.is_held(s, n) ==> disjoint(s, n, start as int, size as int),
        ensures
            final(self)@ == (AllocatorView {
                bump_next: start,
                bump_end: (start + size) as usize,
                managed: old(self)@.managed.union(range_set(start as int, size as int)),
                ..old(self)@
            }),
            final(self)@.wf(),
    {
        proof {
            lemma_init_keeps_wf(self@, start, size);
        }
        self.bump_next = start;
        self.bump_end = start + size;
        self.managed = Ghost(self.managed@.union(range_set(start as int, size as int)));
    }

    /// Returns the index of the smallest size class that fits `size` bytes, or
    /// `None` if `size` exceeds all classes.
    fn cache_index(size: usize) -> (r: Option<usize>)
        ensures
            r == class_of(size as int),
            r matches Some(i) ==> i < NUM_CLASSES && slab_size(i as int) >= size
                && forall|j: int| 0 <= j < i ==> slab_size(j) < size,
            r is None ==> forall|j: int| 0 <= j < NUM_CLASSES ==> slab_size(j) < size,
    {
        let mut i: usize = 0;
        while i < NUM_CLASSES
            invariant
                i <= NUM_CLASSES,
                forall|j: int| 0 <= j < i ==> slab_size(j) < size,
            decreases NUM_CLASSES - i,
        {
            if slab_size_at(i) >= size {
                proof {
                    if i > 0 {
                        assert(slab_size(i - 1) < size);
                    }
                    lemma_class_of_smallest_fit(size as int, i as int);
                }
                return Some(i);
            }
            i = i + 1;
        }
        assert(slab_size(8) < size);
        None
    }

    /// Allocates a block for `layout` and returns its address, or 0 when the
    /// memory is exhausted.
    ///
    /// The request is rounded up to at least its alignment and to room for a
    /// free-list link; the smallest size class that fits serves it from its
    /// free list, refilling the list from the bump region when empty. Requests
    /// larger than every class are served from the bump region directly, at
    /// the next address aligned to the layout.
    pub fn allocate(&mut self, layout: Layout) -> (r: usize)
        requires
            old(self)@.wf(),
            !old(self)@.alloc_overflows(layout@),
        ensures
            final(self)@.wf(),
            final(self)@ == old(self)@.allocate(layout@).0,
            r == (match old(self)@.allocate(layout@).1 {
                Some(a) => a,
                None => 0,
            }),
            old(self)@.allocate(layout@).1 matches Some(a) ==> {
                &&& a as int % layout@.1 as int == 0
                &&& range_in(old(self)@.managed, a as int, block_len(layout@))
                &&& forall|s: int, n: int| old(self)@.is_live(s, n) ==> disjoint(a as int, block_len(layout@), s, n)
                &&& forall|s: int, n: int| final(self)@.is_live(s, n)
                    == (old(self)@.is_live(s, n) || (s == a && n == block_len(layout@)))
            },
            old(self)@.allocate(layout@).1 is None ==> forall|s: int, n: int|
                final(self)@.is_live(s, n) == old(self)@.is_live(s, n),
    {
        let align = layout.align();
        let size = layout.size().max(align).max(LINK_SIZE);
        assert(size == request_size(layout@));
        let ghost v0 = self@;
        proof {
            lemma_allocate(v0, layout@);
        }
        match Self::cache_index(size) {
            Some(i) => {
                proof {
                    lemma_slab_size_facts(i as int);
                    assert(v0.caches[i as int].wf());
                    assert(self.caches@[i as int]@ == v0.caches[i as int]);
                    let cv = v0.caches[i as int];
                    assert forall|a: usize| #[trigger] cv.holds(a) implies a + cv.object_size <= v0.bump_next
                        || a >= v0.bump_end || v0.bump_next >= v0.bump_end by {
                        assert(v0.in_cache(i as int, a as int));
                    }
                }
                let r = self.caches[i].allocate(&mut self.bump_next, self.bump_end);
                proof {
                    assert(self@.caches =~= v0.caches.update(i as int, self.caches@[i as int]@));
                }
                match r {
                    Some(a) => a,
                    None => 0,
                }
            },
            None => {
                let start = align_up(self.bump_next, align);
                let end = match start.checked_add(layout.size()) {
                    Some(e) => e,
                    None => {
                        return 0;
                    },
                };
                if end > self.bump_end {
                    return 0;
                }
                self.bump_next = end;
                self.oversized_allocs = self.oversized_allocs + 1;
                self.oversized = Ghost(self.oversized@.insert((start as int, layout@.0 as int)));
                start
            },
        }
    }

    /// Returns the block at `ptr`, allocated with `layout`, for reuse.
    ///
    /// Objects of a size class go back on the free list of that class, where
    /// the next allocation of the class finds them first. Blocks served from
    /// the bump region are never reused: for them nothing happens.
    pub fn dealloc(&mut self, ptr: usize, layout: Layout)
        requires
            old(self)@.wf(),
            old(self)@.can_deallocate(ptr, layout@),
        ensures
            final(self)@.wf(),
            final(self)@ == old(self)@.deallocate(ptr, layout@),
            forall|s: int, n: int| final(self)@.is_live(s, n)
                == (old(self)@.is_live(s, n) && !(class_of(request_size(layout@)) is Some && s == ptr
                    && n == block_len(layout@))),
    {
        let size = layout.size().max(layout.align()).max(LINK_SIZE);
        let ghost v0 = self@;
        if let Some(i) = Self::cache_index(size) {
            proof {
                assert(v0.caches[i as int].wf());
                assert(self.caches@[i as int]@ == v0.caches[i as int]);
                lemma_dealloc_keeps_wf(v0, i as int, ptr);
            }
            self.caches[i].dealloc(ptr);
            proof {
                assert(self@.caches =~= v0.caches.update(i as int, v0.caches[i as int].dealloc(ptr)));
            }
        }
    }

    /// Whether [`allocate`](SlabAllocator::allocate) for `layout` would
    /// overflow the address arithmetic or a counter. Callers that cannot prove
    /// otherwise test this before allocating.
    pub fn alloc_overflows(&self, layout: &Layout) -> (r: bool)
        requires
            self@.wf(),
        ensures
            r == self@.alloc_overflows(layout@),
    {
        let align = layout.align();
        let size = layout.size().max(align).max(LINK_SIZE);
        match Self::cache_index(size) {
            Some(i) => {
                proof {
                    lemma_slab_size_facts(i as int);
                    assert(self@.caches[i as int].wf());
                }
                self.caches[i].alloc_overflows(self.bump_next, self.bump_end)
            },
            None => {
                proof {
                    lemma_pow2_divides(align as int, align as int);
                }
                if self.bump_next > usize::MAX - (align - 1) {
                    return true;
                }
                let start = align_up(self.bump_next, align);
                let fits = match start.checked_add(layout.size()) {
                    Some(end) => end <= self.bump_end,
                    None => false,
                };
                fits && self.oversized_allocs == usize::MAX
            },
        }
    }

    /// Allocates a block for `layout`, as [`allocate`](SlabAllocator::allocate) does.
    pub fn alloc_test(&mut self, layout: Layout) -> (r: usize)
        requires
            old(self)@.wf(),
            !old(self)@.alloc_overflows(layout@),
        ensures
            final(self)@.wf(),
            final(self)@ == old(self)@.allocate(layout@).0,
            r == (match old(self)@.allocate(layout@).1 {
                Some(a) => a,
                None => 0,
            }),
    {
        self.allocate(layout)
    }

    /// Returns a block, as [`dealloc`](SlabAllocator::dealloc) does.
    pub fn dealloc_test(&mut self, ptr: usize, layout: Layout)
        requires
            old(self)@.wf(),
            old(self)@.can_deallocate(ptr, layout@),
        ensures
            final(self)@.wf(),
            final(self)@ == old(self)@.deallocate(ptr, layout@),
    {
        self.dealloc(ptr, layout)
    }
}

} // verus!
