//! One cache per size class: a LIFO free list of objects, carved from the
//! shared bump region a slab at a time, with slab colouring.
use vstd::prelude::*;
use vstd::arithmetic::power2::is_pow2;
use crate::slab::align::{align_up, round_up};
use crate::slab::classes::{color_step_for, CACHE_LINE_SIZE, NUM_COLORS, SLAB_BYTES};
use crate::slab::preserve::{lemma_cache_grow, lemma_cache_pop};

verus! {

/// Snapshot of allocation statistics for one [`SlabCache`].
#[derive(Clone, Copy, Debug)]
pub struct CacheStats {
    /// Size class this cache serves, in bytes.
    pub object_size: usize,
    /// Total number of successful allocations from this cache.
    pub allocs: usize,
    /// Total number of deallocations returned to this cache.
    pub deallocs: usize,
    /// Currently live objects (`allocs - deallocs`).
    pub live: usize,
    /// Current slab colour offset in bytes.
    pub color_next: usize,
    /// Colour step in bytes (`max(CACHE_LINE_SIZE, object_size)`).
    pub color_step: usize,
}

/// A cache that manages a free list of fixed-size objects for one size class,
/// with slab colouring to reduce CPU cache line conflicts.
///
/// Free objects are kept as their addresses on a stack: the object freed or
/// carved last is handed out first. Each time a new slab is carved from the
/// bump region, its start is shifted by `color_next` bytes; `color_next`
/// advances by `color_step = max(CACHE_LINE_SIZE, object_size)` and wraps
/// after `NUM_COLORS` steps.
pub struct SlabCache {
    object_size: usize,
    free_list: Vec<usize>,
    allocs: usize,
    deallocs: usize,
    color_next: usize,
    color_step: usize,
    color_max: usize,
    /// The objects handed out and not yet returned.
    outstanding: Ghost<Set<usize>>,
}

/// The abstract state of a [`SlabCache`].
pub struct CacheView {
    pub object_size: usize,
    /// The free list; its last element is handed out next.
    pub free: Seq<usize>,
    /// The objects handed out and not yet returned.
    pub outstanding: Set<usize>,
    pub allocs: usize,
    pub deallocs: usize,
    pub color_next: usize,
    pub color_step: usize,
    pub color_max: usize,
}

impl View for SlabCache {
    type V = CacheView;

    closed spec fn view(&self) -> CacheView {
        CacheView {
            object_size: self.object_size,
            free: self.free_list@,
            outstanding: self.outstanding@,
            allocs: self.allocs,
            deallocs: self.deallocs,
            color_next: self.color_next,
            color_step: self.color_step,
            color_max: self.color_max,
        }
    }
}

/// `count` objects of `size` bytes laid end to end from `start`, in address order.
pub open spec fn carve(start: int, size: int, count: int) -> Seq<usize> {
    Seq::new(count as nat, |k: int| (start + k * size) as usize)
}

impl CacheView {
    /// A fresh cache for objects of `object_size` bytes.
    pub open spec fn initial(object_size: usize) -> CacheView {
        CacheView {
            object_size,
            free: Seq::empty(),
            outstanding: Set::empty(),
            allocs: 0,
            deallocs: 0,
            color_next: 0,
            color_step: color_step_for(object_size as int) as usize,
            color_max: (color_step_for(object_size as int) * NUM_COLORS) as usize,
        }
    }

    /// Whether the cache holds the object at `addr`, free or handed out.
    pub open spec fn holds(self, addr: usize) -> bool {
        self.free.contains(addr) || self.outstanding.contains(addr)
    }

    /// The cache's invariant.
    pub open spec fn wf(self) -> bool {
        &&& self.color_step == color_step_for(self.object_size as int)
        &&& self.color_max == self.color_step * NUM_COLORS
        &&& self.color_next < self.color_max
        &&& self.color_next % self.color_step == 0
        &&& self.deallocs <= self.allocs
        &&& self.outstanding.finite()
        &&& self.outstanding.len() == self.allocs - self.deallocs
        &&& self.free.no_duplicates()
        &&& forall|a: usize| self.free.contains(a) ==> !self.outstanding.contains(a)
        &&& forall|a: usize| #[trigger] self.holds(a) ==> a % self.object_size == 0
    }

    /// The statistics that [`SlabCache::stats`] reports.
    pub open spec fn stats(self) -> CacheStats {
        CacheStats {
            object_size: self.object_size,
            allocs: self.allocs,
            deallocs: self.deallocs,
            live: (self.allocs - self.deallocs) as usize,
            color_next: self.color_next,
            color_step: self.color_step,
        }
    }

    /// The colour offset after one step: advanced by `color_step`, wrapping to 0 at `color_max`.
    pub open spec fn next_color(self) -> usize {
        if self.color_next + self.color_step >= self.color_max {
            0
        } else {
            (self.color_next + self.color_step) as usize
        }
    }

    /// Where the next slab starts: the bump pointer aligned to the object size,
    /// shifted by the colour offset.
    pub open spec fn colored_start(self, bump_next: usize) -> int {
        round_up(bump_next as int, self.object_size as int) + self.color_next
    }

    /// How many objects one refill carves: as many as fit in the rest of the
    /// bump region after the coloured start, and in at most `SLAB_BYTES` bytes.
    pub open spec fn slab_count(self, bump_next: usize, bump_end: usize) -> int {
        let start = self.colored_start(bump_next);
        if start >= bump_end {
            0
        } else {
            let available = if bump_end - start < SLAB_BYTES {
                bump_end - start
            } else {
                SLAB_BYTES as int
            };
            available / self.object_size as int
        }
    }

    /// Whether refilling from `bump_next` overflows the address arithmetic.
    pub open spec fn grow_overflows(self, bump_next: usize) -> bool {
        ||| bump_next + self.object_size - 1 > usize::MAX
        ||| self.colored_start(bump_next) > usize::MAX
    }

    /// Whether the bump region `[bump_next, bump_end)` is exhausted for this
    /// cache: not even one object fits after the bump pointer aligned to the
    /// object size, whatever the colour offset.
    pub open spec fn exhausted(self, bump_next: usize, bump_end: usize) -> bool {
        CacheView { color_next: 0, ..self }.slab_count(bump_next, bump_end) == 0
    }

    /// Whether none of the objects of the cache, free or handed out, overlaps
    /// the bump region `[bump_next, bump_end)`.
    pub open spec fn clear_of(self, bump_next: usize, bump_end: usize) -> bool {
        forall|a: usize| #[trigger] self.holds(a)
            ==> a + self.object_size <= bump_next || a >= bump_end || bump_next >= bump_end
    }

    /// The cache and bump pointer after one refill from the bump region
    /// `[bump_next, bump_end)`. When the region is exhausted, nothing
    /// changes. Otherwise the colour advances for the next slab, and if at
    /// least one object fits at the current colour offset, the objects are
    /// pushed on the free list in address order and the bump pointer moves
    /// past them.
    pub open spec fn grow(self, bump_next: usize, bump_end: usize) -> (CacheView, usize) {
        let colored = CacheView { color_next: self.next_color(), ..self };
        let count = self.slab_count(bump_next, bump_end);
        if self.exhausted(bump_next, bump_end) {
            (self, bump_next)
        } else if count == 0 {
            (colored, bump_next)
        } else {
            let start = self.colored_start(bump_next);
            (
                CacheView {
                    free: self.free + carve(start, self.object_size as int, count),
                    ..colored
                },
                (start + count * self.object_size) as usize,
            )
        }
    }

    /// The cache before popping: refilled first if its free list is empty.
    pub open spec fn refill(self, bump_next: usize, bump_end: usize) -> (CacheView, usize) {
        if self.free.len() == 0 {
            self.grow(bump_next, bump_end)
        } else {
            (self, bump_next)
        }
    }

    /// Allocation from this cache: refill if empty, then pop the last free
    /// object, or report failure when the refill carved nothing.
    pub open spec fn allocate(self, bump_next: usize, bump_end: usize) -> (CacheView, usize, Option<usize>) {
        let (c, b) = self.refill(bump_next, bump_end);
        if c.free.len() == 0 {
            (c, b, None)
        } else {
            let a = c.free.last();
            (
                CacheView {
                    free: c.free.drop_last(),
                    outstanding: c.outstanding.insert(a),
                    allocs: (c.allocs + 1) as usize,
                    ..c
                },
                b,
                Some(a),
            )
        }
    }

    /// Whether allocation from this cache overflows: in the refill address
    /// arithmetic, or in the allocation counter.
    pub open spec fn alloc_overflows(self, bump_next: usize, bump_end: usize) -> bool {
        ||| (self.free.len() == 0 && self.grow_overflows(bump_next))
        ||| {
            let (c, b) = self.refill(bump_next, bump_end);
            c.free.len() > 0 && c.allocs == usize::MAX
        }
    }

    /// The cache after the object at `addr` is returned to it.
    pub open spec fn dealloc(self, addr: usize) -> CacheView {
        CacheView {
            free: self.free.push(addr),
            outstanding: self.outstanding.remove(addr),
            deallocs: (self.deallocs + 1) as usize,
            ..self
        }
    }
}

impl SlabCache {
    /// Creates a new, empty `SlabCache` for objects of `object_size` bytes.
    ///
    /// The colour step is `max(CACHE_LINE_SIZE, object_size)`, so that for a
    /// power-of-two object size the colour offset is a multiple of the object
    /// size and at least one full cache line apart.
    pub fn new(object_size: usize) -> (r: SlabCache)
        requires
            color_step_for(object_size as int) * NUM_COLORS <= usize::MAX,
        ensures
            r@ == CacheView::initial(object_size),
            r@.wf(),
    {
        let color_step = if object_size >= CACHE_LINE_SIZE {
            object_size
        } else {
            CACHE_LINE_SIZE
        };
        let c = SlabCache {
            object_size,
            free_list: Vec::new(),
            allocs: 0,
            deallocs: 0,
            color_next: 0,
            color_step,
            color_max: color_step * NUM_COLORS,
            outstanding: Ghost(Set::empty()),
        };
        proof {
            assert(c@.free =~= Seq::<usize>::empty());
        }
        c
    }

    /// Returns a statistics snapshot for this cache.
    pub fn stats(&self) -> (r: CacheStats)
        requires
            self@.wf(),
        ensures
            r == self@.stats(),
    {
        CacheStats {
            object_size: self.object_size,
            allocs: self.allocs,
            deallocs: self.deallocs,
            live: self.allocs - self.deallocs,
            color_next: self.color_next,
            color_step: self.color_step,
        }
    }

    /// Carves up to `SLAB_BYTES` bytes of objects from the bump region
    /// `[bump_next, bump_end)` and adds them to the free list, applying the
    /// current slab colour offset, which then advances for the next slab;
    /// when no object fits at the current offset, only the colour advances.
    ///
    /// Does nothing if the bump region is exhausted.
    fn grow(&mut self, bump_next: &mut usize, bump_end: usize)
        requires
            old(self)@.wf(),
            is_pow2(old(self)@.object_size as int),
            !old(self)@.grow_overflows(*old(bump_next)),
        ensures
            (final(self)@, *final(bump_next)) == old(self)@.grow(*old(bump_next), bump_end),
    {
        let ghost c0 = self@;
        let base = align_up(*bump_next, self.object_size);
        let colored_start = base + self.color_next;

        // The region is exhausted when not even one object fits at `base`.
        let room = if base >= bump_end {
            0
        } else if bump_end - base < SLAB_BYTES {
            bump_end - base
        } else {
            SLAB_BYTES
        };
        if room < self.object_size {
            proof {
                let r = room as int;
                let os = self.object_size as int;
                assert(r / os == 0) by (nonlinear_arith)
                    requires
                        0 <= r < os,
                ;
            }
            return;
        }

        // Advance the colour for the next slab.
        proof {
            let n = self.color_next as int;
            let st = self.color_step as int;
            assert(n + st <= st * 4) by (nonlinear_arith)
                requires
                    n % st == 0,
                    n < st * 4,
                    st > 0,
                    n >= 0,
            ;
            assert((room as int) / (self.object_size as int) > 0) by (nonlinear_arith)
                requires
                    room >= self.object_size,
                    self.object_size > 0,
            ;
        }
        self.color_next = self.color_next + self.color_step;
        if self.color_next >= self.color_max {
            self.color_next = 0;
        }

        if colored_start >= bump_end {
            return;
        }

        let gap = bump_end - colored_start;
        let available = if gap < SLAB_BYTES {
            gap
        } else {
            SLAB_BYTES
        };
        let count = available / self.object_size;
        if count == 0 {
            return;
        }

        let os = self.object_size;
        proof {
            assert(count * os <= available) by (nonlinear_arith)
                requires
                    count == available / os,
                    os > 0,
            ;
        }
        *bump_next = colored_start + count * os;

        let mut i: usize = 0;
        while i < count
            invariant
                i <= count,
                os == c0.object_size,
                os > 0,
                colored_start + count * os <= usize::MAX,
                self@ == (CacheView { free: self@.free, color_next: c0.next_color(), ..c0 }),
                self@.free == c0.free + carve(colored_start as int, os as int, i as int),
            decreases count - i,
        {
            proof {
                assert(i * os <= count * os) by (nonlinear_arith)
                    requires
                        i <= count,
                ;
            }
            self.free_list.push(colored_start + i * os);
            proof {
                assert(self@.free =~= c0.free + carve(colored_start as int, os as int, i + 1));
            }
            i = i + 1;
        }
    }

    /// Allocates one object from this cache: refills if the free list is
    /// empty, then pops the last free object. `None` when the refill carved
    /// nothing.
    pub(crate) fn allocate(&mut self, bump_next: &mut usize, bump_end: usize) -> (r: Option<usize>)
        requires
            old(self)@.wf(),
            is_pow2(old(self)@.object_size as int),
            old(self)@.color_step % old(self)@.object_size == 0,
            old(self)@.clear_of(*old(bump_next), bump_end),
            !old(self)@.alloc_overflows(*old(bump_next), bump_end),
        ensures
            (final(self)@, *final(bump_next), r) == old(self)@.allocate(*old(bump_next), bump_end),
            final(self)@.wf(),
    {
        if self.free_list.len() == 0 {
            proof {
                vstd::arithmetic::power2::is_pow2_equiv(self.object_size as int);
                vstd::arithmetic::power::lemma_pow_positive(2, choose|k: nat| vstd::arithmetic::power::pow(2, k) == self.object_size as int);
                lemma_cache_grow(self@, *bump_next, bump_end);
            }
            self.grow(bump_next, bump_end);
        }
        if self.free_list.len() == 0 {
            return None;
        }
        proof {
            lemma_cache_pop(self@);
        }
        let node = self.free_list.pop().unwrap();
        self.outstanding = Ghost(self.outstanding@.insert(node));
        self.allocs = self.allocs + 1;
        Some(node)
    }

    /// Returns the object at `addr`, handed out by this cache, to the free list.
    pub(crate) fn dealloc(&mut self, addr: usize)
        requires
            old(self)@.wf(),
            old(self)@.outstanding.contains(addr),
        ensures
            final(self)@ == old(self)@.dealloc(addr),
            final(self)@.wf(),
    {
        proof {
            vstd::set_lib::lemma_set_empty_equivalency_len(self@.outstanding);
        }
        self.free_list.push(addr);
        self.outstanding = Ghost(self.outstanding@.remove(addr));
        self.deallocs = self.deallocs + 1;
        proof {
            let c0 = old(self)@;
            let c1 = self@;
            assert forall|a: usize| #[trigger] c1.holds(a) implies c0.holds(a) by {
                if c1.free.contains(a) && a != addr {
                    let k = choose|k: int| 0 <= k < c1.free.len() && c1.free[k] == a;
                    assert(c0.free[k] == a);
                }
            }
            assert forall|a: usize| c1.free.contains(a) implies !c1.outstanding.contains(a) by {
                if a != addr {
                    let k = choose|k: int| 0 <= k < c1.free.len() && c1.free[k] == a;
                    assert(c0.free[k] == a);
                }
            }
            assert(!c0.free.contains(addr));
            assert forall|i: int, j: int| 0 <= i < c1.free.len() && 0 <= j < c1.free.len() && i != j
                implies c1.free[i] != c1.free[j] by {
                if i < c0.free.len() && j < c0.free.len() {
                } else if i < c0.free.len() {
                    assert(c0.free.contains(c1.free[i]));
                } else {
                    assert(c0.free.contains(c1.free[j]));
                }
            }
        }
    }

    /// Whether [`allocate`](SlabCache::allocate) from the bump region
    /// `[bump_next, bump_end)` would overflow the address arithmetic or the
    /// allocation counter.
    pub(crate) fn alloc_overflows(&self, bump_next: usize, bump_end: usize) -> (r: bool)
        requires
            self@.wf(),
            is_pow2(self@.object_size as int),
        ensures
            r == self@.alloc_overflows(bump_next, bump_end),
    {
        if self.free_list.len() > 0 {
            return self.allocs == usize::MAX;
        }
        proof {
            vstd::arithmetic::power2::is_pow2_equiv(self.object_size as int);
            vstd::arithmetic::power::lemma_pow_positive(2, choose|k: nat| vstd::arithmetic::power::pow(2, k) == self.object_size as int);
        }
        if bump_next > usize::MAX - (self.object_size - 1) {
            return true;
        }
        let base = align_up(bump_next, self.object_size);
        if base > usize::MAX - self.color_next {
            return true;
        }
        let colored_start = base + self.color_next;
        if colored_start >= bump_end {
            return false;
        }
        let gap = bump_end - colored_start;
        let available = if gap < SLAB_BYTES {
            gap
        } else {
            SLAB_BYTES
        };
        let count = available / self.object_size;
        proof {
            if count > 0 {
                let os = self.object_size as int;
                let a = available as int;
                let be = bump_end as int;
                let b = base as int;
                let room = if be - b < SLAB_BYTES { be - b } else { SLAB_BYTES as int };
                assert(room >= a);
                assert(room / os >= 1) by (nonlinear_arith)
                    requires
                        a / os > 0,
                        room >= a,
                        os > 0,
                ;
                assert(!self@.exhausted(bump_next, bump_end));
            }
        }
        count > 0 && self.allocs == usize::MAX
    }
}

} // verus!
