//! Properties of the allocator that hold across operations and states.
use vstd::prelude::*;
use vstd::arithmetic::power2::is_pow2;
use vstd::layout::valid_layout;
use crate::slab::allocator::{block_len, disjoint, range_in, request_size, AllocatorView};
use crate::slab::preserve::{lemma_allocate, lemma_dealloc_keeps_wf, lemma_slab_size_injective, with_cache};
use crate::slab::cache::CacheView;
use crate::slab::classes::{
    class_of, lemma_class_of_smallest_fit, lemma_slab_size_facts, slab_size, LARGEST_CLASS, NUM_CLASSES, NUM_COLORS, SLAB_BYTES,
};
use crate::slab::align::{lemma_pow2_divides, lemma_round_up, round_up};
use vstd::arithmetic::power2::{lemma2_to64, pow2};

verus! {

/// Two different live blocks never share a byte.
pub proof fn lemma_live_blocks_disjoint(v: AllocatorView, s1: int, n1: int, s2: int, n2: int)
    requires
        v.wf(),
        v.is_live(s1, n1),
        v.is_live(s2, n2),
        (s1, n1) != (s2, n2),
    ensures
        disjoint(s1, n1, s2, n2),
{
    if !v.oversized.contains((s1, n1)) {
        let i = choose|i: int|
            0 <= i < NUM_CLASSES && n1 == slab_size(i) && 0 <= s1 <= usize::MAX
                && #[trigger] v.caches[i].outstanding.contains(s1 as usize);
        assert(v.in_cache(i, s1));
        if !v.oversized.contains((s2, n2)) {
            let j = choose|j: int|
                0 <= j < NUM_CLASSES && n2 == slab_size(j) && 0 <= s2 <= usize::MAX
                    && #[trigger] v.caches[j].outstanding.contains(s2 as usize);
            assert(v.in_cache(j, s2));
        }
    } else if !v.oversized.contains((s2, n2)) {
        let j = choose|j: int|
            0 <= j < NUM_CLASSES && n2 == slab_size(j) && 0 <= s2 <= usize::MAX
                && #[trigger] v.caches[j].outstanding.contains(s2 as usize);
        assert(v.in_cache(j, s2));
    }
}

/// Every live block lies in the regions handed to `init`, below `usize::MAX`.
pub proof fn lemma_live_blocks_in_managed(v: AllocatorView, s: int, n: int)
    requires
        v.wf(),
        v.is_live(s, n),
    ensures
        range_in(v.managed, s, n),
        n > 0 ==> 0 <= s && s + n <= usize::MAX,
{
    if !v.oversized.contains((s, n)) {
        let i = choose|i: int|
            0 <= i < NUM_CLASSES && n == slab_size(i) && 0 <= s <= usize::MAX
                && #[trigger] v.caches[i].outstanding.contains(s as usize);
        assert(v.in_cache(i, s));
    }
    if n > 0 {
        assert(v.managed.contains(s));
        assert(v.managed.contains(s + n - 1));
    }
}

/// The live count a cache reports is the number of its objects handed out
/// and not returned.
pub proof fn lemma_live_count(v: AllocatorView, i: int)
    requires
        v.wf(),
        0 <= i < NUM_CLASSES,
    ensures
        v.caches[i].stats().live == v.caches[i].outstanding.len(),
{
    assert(v.caches[i].wf());
}

/// An object returned to its size class is the first one handed out by the
/// next allocation of that class, and that allocation takes nothing from
/// the bump region.
pub proof fn lemma_freed_object_reused_first(v: AllocatorView, p: usize, l: (usize, usize), l2: (usize, usize))
    requires
        v.wf(),
        v.can_deallocate(p, l),
        class_of(request_size(l)) is Some,
        class_of(request_size(l2)) == class_of(request_size(l)),
    ensures
        v.deallocate(p, l).allocate(l2).1 == Some(p),
        v.deallocate(p, l).allocate(l2).0.bump_next == v.bump_next,
        v.deallocate(p, l).allocate(l2).0.bump_end == v.bump_end,
{
    let i = class_of(request_size(l))->0 as int;
    let w = v.deallocate(p, l);
    assert(w.caches[i] == v.caches[i].dealloc(p));
    assert(w.caches[i].free.len() > 0);
    assert(w.caches[i].free.last() == p);
}

/// The colour offset of a cache returns to where it was after `NUM_COLORS` steps.
pub proof fn lemma_color_cycle(c: CacheView)
    requires
        c.wf(),
    ensures
        ({
            let c1 = CacheView { color_next: c.next_color(), ..c };
            let c2 = CacheView { color_next: c1.next_color(), ..c1 };
            let c3 = CacheView { color_next: c2.next_color(), ..c2 };
            c3.next_color() == c.color_next
        }),
{
    let st = c.color_step as int;
    let n = c.color_next as int;
    assert(st > 0);
    assert(n == 0 || n == st || n == 2 * st || n == 3 * st) by (nonlinear_arith)
        requires
            n % st == 0,
            0 <= n < st * 4,
            st > 0,
    ;
}

/// Allocation never gives memory back to the bump region: the bump pointer
/// only moves up, and the end of the region stays.
pub proof fn lemma_bump_only_shrinks(v: AllocatorView, l: (usize, usize))
    requires
        v.wf(),
        valid_layout(l.0, l.1),
        !v.alloc_overflows(l),
    ensures
        v.allocate(l).0.bump_next >= v.bump_next,
        v.allocate(l).0.bump_end == v.bump_end,
{
    match class_of(request_size(l)) {
        Some(i) => {
            let c = v.caches[i as int];
            lemma_slab_size_facts(i as int);
            assert(c.wf());
            if c.free.len() == 0 {
                crate::slab::preserve::lemma_grow_keeps_wf(v, i as int);
            }
        },
        None => {
            reveal(is_pow2);
            crate::slab::align::lemma_round_up(v.bump_next as int, l.1 as int);
        },
    }
}

/// Returning the object that an allocation from a size class just handed
/// out restores the live blocks to what they were before the allocation.
pub proof fn lemma_dealloc_undoes_alloc(v: AllocatorView, l: (usize, usize))
    requires
        v.wf(),
        valid_layout(l.0, l.1),
        !v.alloc_overflows(l),
        class_of(request_size(l)) is Some,
        v.allocate(l).1 is Some,
    ensures
        ({
            let (w, r) = v.allocate(l);
            let u = w.deallocate(r->0, l);
            &&& w.can_deallocate(r->0, l)
            &&& u.wf()
            &&& forall|s: int, n: int| u.is_live(s, n) == v.is_live(s, n)
        }),
{
    let (w, r) = v.allocate(l);
    let a = r->0;
    let i = class_of(request_size(l))->0 as int;
    lemma_allocate(v, l);
    assert(block_len(l) == slab_size(i));
    assert(w.is_live(a as int, slab_size(i)));
    if !w.oversized.contains((a as int, slab_size(i))) {
        let j = choose|j: int|
            0 <= j < NUM_CLASSES && slab_size(i) == slab_size(j) && 0 <= a <= usize::MAX
                && #[trigger] w.caches[j].outstanding.contains(a as usize);
        assert(j == i) by {
            lemma_slab_size_injective(i, j);
        }
    } else {
        // Allocation from a class keeps the bump-region blocks as they were:
        // the block would have been live before, and would overlap itself.
        assert(v.is_live(a as int, slab_size(i)));
        lemma_slab_size_facts(i);
    }
    assert(w.can_deallocate(a, l));
    lemma_dealloc_keeps_wf(w, i, a);
    assert(w.deallocate(a, l) == with_cache(w, i, w.caches[i].dealloc(a), w.bump_next));
    assert forall|s: int, n: int| w.deallocate(a, l).is_live(s, n) == v.is_live(s, n) by {
        if s == a && n == slab_size(i) && v.is_live(s, n) {
            lemma_slab_size_facts(i);
        }
    }
}

/// One refill of the cache of class `i` moves the bump pointer up by at most
/// the alignment gap, the colour offset and one slab, never past the end of
/// the region, and leaves the colour offset a multiple of the object size
/// below `NUM_COLORS` colour steps.
pub proof fn lemma_grow_bounds(c: CacheView, i: int, bump_next: usize, bump_end: usize)
    requires
        c.wf(),
        0 <= i < NUM_CLASSES,
        c.object_size == slab_size(i),
        bump_next <= bump_end,
        !c.grow_overflows(bump_next),
    ensures
        ({
            let (g, b) = c.grow(bump_next, bump_end);
            &&& bump_next <= b <= bump_end
            &&& b - bump_next <= (c.object_size - 1) + (NUM_COLORS - 1) * c.color_step + SLAB_BYTES
            &&& g.color_step == c.color_step
            &&& g.color_next as int % c.object_size as int == 0
            &&& g.color_next < NUM_COLORS * g.color_step
        }),
{
    let os = c.object_size as int;
    let st = c.color_step as int;
    let n = c.color_next as int;
    lemma_slab_size_facts(i);
    assert(st > 0);
    crate::slab::align::lemma_round_up(bump_next as int, os);
    assert(n <= 3 * st) by (nonlinear_arith)
        requires
            n % st == 0,
            0 <= n < st * 4,
            st > 0,
    ;
    crate::slab::align::lemma_multiple_trans(n, st, os);
    let count = c.slab_count(bump_next, bump_end);
    let start = c.colored_start(bump_next);
    if count > 0 {
        let be = bump_end as int;
        assert(count * os <= (if be - start < 4096 { be - start } else { 4096 })) by (nonlinear_arith)
            requires
                count == (if be - start < 4096 { be - start } else { 4096 }) / os,
                os > 0,
                start < be,
        ;
        let nn = if n + st >= st * 4 { 0 } else { n + st };
        assert(c.next_color() == nn);
        if nn != 0 {
            crate::slab::align::lemma_multiple_step(n, 1, st);
            crate::slab::align::lemma_multiple_trans(nn, st, os);
        }
    }
}

/// A well-formed cache never reports more returns than allocations, so its
/// live count, `allocs - deallocs`, is between 0 and `allocs`.
pub proof fn lemma_cache_counters_ordered(c: CacheView)
    requires
        c.wf(),
    ensures
        c.stats().deallocs <= c.stats().allocs,
        c.stats().live <= c.stats().allocs,
        c.stats().live == c.stats().allocs - c.stats().deallocs,
{
}

/// A request beyond every size class is carved from the bump region at the
/// first address at or above the bump pointer that its alignment divides,
/// whether or not the bump pointer is aligned already: it succeeds there,
/// moving the bump pointer to the block's end, exactly when the block fits
/// below the end of the bump region, and is refused otherwise.
pub proof fn lemma_oversized_at_next_aligned(v: AllocatorView, l: (usize, usize), a: int)
    requires
        valid_layout(l.0, l.1),
        request_size(l) > LARGEST_CLASS,
        a % (l.1 as int) == 0,
        v.bump_next <= a < v.bump_next + l.1,
    ensures
        a + l.0 <= v.bump_end ==> v.allocate(l).1 == Some(a as usize) && v.allocate(l).0.bump_next == a + l.0,
        a + l.0 > v.bump_end ==> v.allocate(l).1 is None && v.allocate(l).0 == v,
{
    let align = l.1 as int;
    assert(is_pow2(align));
    lemma_pow2_divides(align, align);
    lemma_round_up(v.bump_next as int, align);
    let r = round_up(v.bump_next as int, align);
    assert(r == a) by {
        vstd::arithmetic::div_mod::lemma_fundamental_div_mod(a, align);
        vstd::arithmetic::div_mod::lemma_fundamental_div_mod(r, align);
        let qa = a / align;
        let qr = r / align;
        assert(qa == qr) by (nonlinear_arith)
            requires
                align > 0,
                a == align * qa,
                r == align * qr,
                a - r < align,
                r - a < align,
        ;
    }
    assert(class_of(request_size(l)) is None);
}

/// The size classes are the powers of two from 8 to 2048 bytes, and a
/// request goes to the smallest class whose objects hold it: a request of
/// `size` bytes, `0 < size <= 2048`, is served by the class `i` with
/// `8 * 2^(i-1) < size <= 8 * 2^i` (class 0 for up to 8 bytes); larger
/// requests are served by no class.
pub proof fn lemma_size_classes(size: int)
    ensures
        forall|i: int| 0 <= i < NUM_CLASSES ==> #[trigger] slab_size(i) == 8 * pow2(i as nat),
        0 < size <= 8 ==> class_of(size) == Some(0usize),
        forall|i: int|
            #![trigger pow2(i as nat)]
            0 < i < NUM_CLASSES && 8 * pow2((i - 1) as nat) < size <= 8 * pow2(i as nat)
                ==> class_of(size) == Some(i as usize),
        size > 2048 ==> class_of(size) is None,
{
    lemma2_to64();
    assert forall|i: int|
        #![trigger pow2(i as nat)]
        0 < i < NUM_CLASSES && 8 * pow2((i - 1) as nat) < size <= 8 * pow2(i as nat)
            implies class_of(size) == Some(i as usize) by {
        assert(slab_size(i - 1) == 8 * pow2((i - 1) as nat));
        assert(slab_size(i) == 8 * pow2(i as nat));
        lemma_class_of_smallest_fit(size, i);
    }
}

} // verus!
