//! Proofs that each step of the allocator keeps its invariant.
use vstd::prelude::*;
use crate::slab::align::{round_up, lemma_round_up, lemma_multiple_step, lemma_multiple_sum, lemma_multiple_trans, lemma_pow2_divides};
use crate::slab::allocator::{block_len, disjoint, range_in, range_set, request_size, AllocatorView};
use crate::slab::cache::{carve, CacheView};
use crate::slab::classes::{class_of, lemma_slab_size_facts, slab_size, NUM_CLASSES};
use vstd::layout::valid_layout;

verus! {

/// A range inside `[bn, bn + blen)` is disjoint from whatever that region is disjoint from.
pub proof fn lemma_sub_range_disjoint(a: int, la: int, bn: int, blen: int, x: int, m: int)
    requires
        disjoint(a, la, bn, blen),
        bn <= x,
        x + m <= bn + blen,
    ensures
        disjoint(a, la, x, m),
{
}

/// Consecutive objects carved from one slab do not overlap.
proof fn lemma_carved_disjoint(start: int, os: int, k1: int, k2: int)
    requires
        os > 0,
        0 <= k1,
        0 <= k2,
        k1 != k2,
    ensures
        disjoint(start + k1 * os, os, start + k2 * os, os),
{
    if k1 < k2 {
        assert(k1 * os + os <= k2 * os) by (nonlinear_arith)
            requires
                k1 < k2,
                os > 0,
        ;
    } else {
        assert(k2 * os + os <= k1 * os) by (nonlinear_arith)
            requires
                k2 < k1,
                os > 0,
        ;
    }
}

/// The `k`-th carved object lies inside the slab.
proof fn lemma_carved_in_slab(start: int, os: int, count: int, k: int)
    requires
        os > 0,
        0 <= k < count,
    ensures
        start <= start + k * os,
        start + k * os + os <= start + count * os,
{
    assert(0 <= k * os && k * os + os <= count * os) by (nonlinear_arith)
        requires
            os > 0,
            0 <= k < count,
    ;
}

/// After one colour step the colour offset is still a multiple of the step below the maximum.
proof fn lemma_next_color(c: CacheView)
    requires
        c.wf(),
    ensures
        (CacheView { color_next: c.next_color(), ..c }).wf(),
{
    let st = c.color_step as int;
    let n = c.color_next as int;
    assert(st > 0);
    assert(n + st <= st * 4) by (nonlinear_arith)
        requires
            n % st == 0,
            n < st * 4,
            st > 0,
            n >= 0,
    ;
    lemma_multiple_step(n, 1, st);
    let c2 = CacheView { color_next: c.next_color(), ..c };
    assert forall|a: usize| #[trigger] c2.holds(a) implies a % c2.object_size == 0 by {
        assert(c.holds(a));
    }
}

/// The allocator after cache `i` is replaced by `c` and the bump pointer moves to `b`.
pub open spec fn with_cache(v: AllocatorView, i: int, c: CacheView, b: usize) -> AllocatorView {
    AllocatorView { caches: v.caches.update(i, c), bump_next: b, ..v }
}

/// Refilling a cache from a bump region that none of its objects overlaps
/// keeps the cache well formed and hands nothing out. When at least one
/// object fits at the colour offset, the new objects are laid end to end
/// from the coloured start, which is aligned to the object size and inside
/// the bump region, and the bump pointer moves past them; otherwise the free
/// list and the bump pointer stay.
pub proof fn lemma_cache_grow(c: CacheView, bump_next: usize, bump_end: usize)
    requires
        c.wf(),
        c.object_size > 0,
        c.color_step % c.object_size == 0,
        !c.grow_overflows(bump_next),
        c.clear_of(bump_next, bump_end),
    ensures
        ({
            let (g, b) = c.grow(bump_next, bump_end);
            let os = c.object_size as int;
            let count = c.slab_count(bump_next, bump_end);
            let start = c.colored_start(bump_next);
            &&& g.wf()
            &&& g.outstanding == c.outstanding
            &&& g.allocs == c.allocs
            &&& g.deallocs == c.deallocs
            &&& g.object_size == c.object_size
            &&& g.color_step == c.color_step
            &&& count == 0 ==> b == bump_next && g.free == c.free
            &&& count > 0 ==> {
                &&& start % os == 0
                &&& bump_next <= start
                &&& b == start + count * os
                &&& b <= bump_end
                &&& g.free == c.free + carve(start, os, count)
                &&& forall|a: usize| #[trigger] g.free.contains(a)
                    <==> (c.free.contains(a) || carve(start, os, count).contains(a))
            }
        }),
{
    let os = c.object_size as int;
    let (g, b) = c.grow(bump_next, bump_end);
    let bn = bump_next as int;
    let be = bump_end as int;
    lemma_next_color(c);
    let count = c.slab_count(bump_next, bump_end);
    let start = c.colored_start(bump_next);
    lemma_round_up(bn, os);
    if count > 0 {
        let carved = carve(start, os, count);
        let st = c.color_step as int;
        assert(start % os == 0) by {
            let r = round_up(bn, os);
            let n = c.color_next as int;
            lemma_multiple_trans(n, st, os);
            lemma_multiple_sum(r, n, os);
        }
        assert(bn <= start);
        assert(start + count * os <= be) by (nonlinear_arith)
            requires
                count == (if be - start < 4096 { be - start } else { 4096 }) / os,
                os > 0,
                start < be,
        ;
        assert(!c.exhausted(bump_next, bump_end)) by {
            let base = round_up(bn, os);
            let room = if be - base < 4096 { be - base } else { 4096 };
            let avail = if be - start < 4096 { be - start } else { 4096 };
            assert(room >= avail);
            assert(room / os >= 1) by (nonlinear_arith)
                requires
                    avail / os > 0,
                    room >= avail,
                    os > 0,
            ;
        }
        assert(b == start + count * os);
        assert forall|k: int| 0 <= k < count implies {
            &&& bn <= #[trigger] carved[k] as int
            &&& carved[k] + os <= b
            &&& carved[k] as int == start + k * os
            &&& carved[k] as int % os == 0
        } by {
            lemma_carved_in_slab(start, os, count, k);
            lemma_multiple_step(start, k, os);
        }
        assert forall|a: usize| #[trigger] g.free.contains(a) <==> (c.free.contains(a) || carved.contains(a)) by {
            if g.free.contains(a) {
                let k = choose|k: int| 0 <= k < g.free.len() && g.free[k] == a;
                if k >= c.free.len() {
                    assert(carved[k - c.free.len()] == a);
                }
            }
            if c.free.contains(a) {
                let k = choose|k: int| 0 <= k < c.free.len() && c.free[k] == a;
                assert(g.free[k] == a);
            }
            if carved.contains(a) {
                let k = choose|k: int| 0 <= k < carved.len() && carved[k] == a;
                assert(g.free[k + c.free.len()] == a);
            }
        }
        // An object the cache held before lies outside the bump region, so it is none of the new ones.
        assert forall|a: usize, k: int| c.holds(a) && 0 <= k < count implies a != carved[k] by {
            assert(c.holds(a));
        }
        assert forall|a: usize| #[trigger] g.holds(a) implies a % g.object_size == 0 by {
            if carved.contains(a) {
                let k = choose|k: int| 0 <= k < carved.len() && carved[k] == a;
            } else {
                assert(c.holds(a));
            }
        }
        assert forall|a: usize| g.free.contains(a) implies !g.outstanding.contains(a) by {
            if carved.contains(a) {
                let k = choose|k: int| 0 <= k < carved.len() && carved[k] == a;
                if g.outstanding.contains(a) {
                    assert(c.holds(a));
                }
            }
        }
        assert(g.free.no_duplicates()) by {
            assert forall|p: int, q: int| 0 <= p < g.free.len() && 0 <= q < g.free.len() && p != q
                implies g.free[p] != g.free[q] by {
                let n = c.free.len() as int;
                if p < n && q < n {
                } else if p >= n && q >= n {
                    lemma_carved_disjoint(start, os, p - n, q - n);
                } else if p < n {
                    assert(c.holds(g.free[p]));
                } else {
                    assert(c.holds(g.free[q]));
                }
            }
        }
    }
}

/// Refilling cache `i` from the bump region keeps the invariant and hands
/// nothing out: the new objects come from the unused bump region.
pub proof fn lemma_grow_keeps_wf(v: AllocatorView, i: int)
    requires
        v.wf(),
        0 <= i < NUM_CLASSES,
        !v.caches[i].grow_overflows(v.bump_next),
    ensures
        ({
            let (c, b) = v.caches[i].grow(v.bump_next, v.bump_end);
            let w = with_cache(v, i, c, b);
            &&& w.wf()
            &&& c.outstanding == v.caches[i].outstanding
            &&& c.allocs == v.caches[i].allocs
            &&& c.deallocs == v.caches[i].deallocs
            &&& c.object_size == v.caches[i].object_size
            &&& v.bump_next <= b
            &&& forall|s: int, n: int| w.is_live(s, n) == v.is_live(s, n)
        }),
{
    let cv = v.caches[i];
    assert(cv.wf());
    assert(cv.object_size == slab_size(i));
    let os = slab_size(i);
    lemma_slab_size_facts(i);
    let (c, b) = cv.grow(v.bump_next, v.bump_end);
    let w = with_cache(v, i, c, b);
    let bn = v.bump_next as int;
    let be = v.bump_end as int;
    assert(cv.clear_of(v.bump_next, v.bump_end)) by {
        assert forall|a: usize| #[trigger] cv.holds(a) implies
            a + cv.object_size <= v.bump_next || a >= v.bump_end || v.bump_next >= v.bump_end by {
            assert(v.in_cache(i, a as int));
        }
    }
    lemma_cache_grow(cv, v.bump_next, v.bump_end);
    let count = cv.slab_count(v.bump_next, v.bump_end);
    let start = cv.colored_start(v.bump_next);
    if count == 0 {
        assert forall|j: int, a: int| w.in_cache(j, a) <==> v.in_cache(j, a) by {
            if j == i {
            }
        }
        assert forall|j: int| 0 <= j < NUM_CLASSES implies #[trigger] w.caches[j].wf() by {
            if j != i {
                assert(w.caches[j] == v.caches[j]);
            }
        }
        assert(w.wf());
        lemma_same_outstanding_same_live(v, w);
    } else {
        let carved = carve(start, os, count);
        assert forall|k: int| 0 <= k < count implies {
            &&& bn <= #[trigger] carved[k] as int
            &&& carved[k] + os <= b
            &&& carved[k] as int == start + k * os
        } by {
            lemma_carved_in_slab(start, os, count, k);
        }
        // Which objects the allocator holds after the refill.
        assert forall|j: int, a: int| #[trigger] w.in_cache(j, a) implies
            v.in_cache(j, a) || (j == i && exists|k: int| 0 <= k < count && a == carved[k] as int) by {
            if j == i && !v.in_cache(j, a) {
                let k = choose|k: int| 0 <= k < carved.len() && carved[k] == a as usize;
            }
        }
        assert forall|j: int, a: int| #[trigger] v.in_cache(j, a) implies w.in_cache(j, a) by {
            if j == i {
                if cv.free.contains(a as usize) {
                }
            }
        }
        // Pairwise disjointness of cache objects.
        assert forall|j1: int, a1: int, j2: int, a2: int|
            w.in_cache(j1, a1) && w.in_cache(j2, a2) && !(j1 == j2 && a1 == a2)
            implies disjoint(a1, slab_size(j1), a2, slab_size(j2)) by {
            let old1 = v.in_cache(j1, a1);
            let old2 = v.in_cache(j2, a2);
            if old1 && old2 {
            } else if old1 {
                let k2 = choose|k: int| 0 <= k < count && a2 == carved[k] as int;
                lemma_sub_range_disjoint(a1, slab_size(j1), bn, be - bn, a2, os);
            } else if old2 {
                let k1 = choose|k: int| 0 <= k < count && a1 == carved[k] as int;
                lemma_sub_range_disjoint(a2, slab_size(j2), bn, be - bn, a1, os);
            } else {
                let k1 = choose|k: int| 0 <= k < count && a1 == carved[k] as int;
                let k2 = choose|k: int| 0 <= k < count && a2 == carved[k] as int;
                lemma_carved_disjoint(start, os, k1, k2);
            }
        }
        // Cache objects against blocks served from the bump region.
        assert forall|j: int, a: int, o: (int, int)|
            w.in_cache(j, a) && w.oversized.contains(o) implies disjoint(a, slab_size(j), o.0, o.1) by {
            if !v.in_cache(j, a) {
                let k = choose|k: int| 0 <= k < count && a == carved[k] as int;
                lemma_sub_range_disjoint(o.0, o.1, bn, be - bn, a, os);
            }
        }
        // Everything against the rest of the bump region, and inside the managed regions.
        assert forall|j: int, a: int| #[trigger] w.in_cache(j, a) implies {
            &&& disjoint(a, slab_size(j), w.bump_next as int, w.bump_end - w.bump_next)
            &&& range_in(w.managed, a, slab_size(j))
        } by {
            if v.in_cache(j, a) {
                lemma_sub_range_disjoint(a, slab_size(j), bn, be - bn, b as int, be - b);
            } else {
                let k = choose|k: int| 0 <= k < count && a == carved[k] as int;
                assert forall|x: int| a <= x < a + slab_size(j) implies #[trigger] w.managed.contains(x) by {
                    assert(v.managed.contains(x));
                }
            }
        }
        assert forall|o: (int, int)| #[trigger] w.oversized.contains(o) implies
            disjoint(o.0, o.1, w.bump_next as int, w.bump_end - w.bump_next) by {
            lemma_sub_range_disjoint(o.0, o.1, bn, be - bn, b as int, be - b);
        }
        assert(range_in(w.managed, w.bump_next as int, w.bump_end - w.bump_next)) by {
            assert forall|x: int| w.bump_next <= x < w.bump_end implies #[trigger] w.managed.contains(x) by {
                assert(v.managed.contains(x));
            }
        }
        assert forall|j: int| 0 <= j < NUM_CLASSES implies #[trigger] w.caches[j].wf() by {
            if j != i {
                assert(w.caches[j] == v.caches[j]);
            }
        }
        assert(w.wf());
        lemma_same_outstanding_same_live(v, w);
    }
}

/// Two states whose caches hand out the same objects and whose bump-region
/// blocks agree have the same live blocks.
proof fn lemma_same_outstanding_same_live(v: AllocatorView, w: AllocatorView)
    requires
        v.caches.len() == NUM_CLASSES,
        w.caches.len() == NUM_CLASSES,
        forall|j: int| 0 <= j < NUM_CLASSES ==> #[trigger] w.caches[j].outstanding == v.caches[j].outstanding,
        w.oversized == v.oversized,
    ensures
        forall|s: int, n: int| w.is_live(s, n) == v.is_live(s, n),
{
    assert forall|s: int, n: int| w.is_live(s, n) == v.is_live(s, n) by {
        if w.is_live(s, n) && !w.oversized.contains((s, n)) {
            let j = choose|j: int|
                0 <= j < NUM_CLASSES && n == slab_size(j) && 0 <= s <= usize::MAX
                    && #[trigger] w.caches[j].outstanding.contains(s as usize);
            assert(v.caches[j].outstanding.contains(s as usize));
        }
        if v.is_live(s, n) && !v.oversized.contains((s, n)) {
            let j = choose|j: int|
                0 <= j < NUM_CLASSES && n == slab_size(j) && 0 <= s <= usize::MAX
                    && #[trigger] v.caches[j].outstanding.contains(s as usize);
            assert(w.caches[j].outstanding.contains(s as usize));
        }
    }
}

/// The cache after its last free object is handed out.
pub open spec fn popped(c: CacheView) -> CacheView {
    CacheView {
        free: c.free.drop_last(),
        outstanding: c.outstanding.insert(c.free.last()),
        allocs: (c.allocs + 1) as usize,
        ..c
    }
}

/// Handing out the last free object of a cache keeps it well formed: the
/// object was free and not handed out, and the cache holds the same objects.
pub proof fn lemma_cache_pop(c: CacheView)
    requires
        c.wf(),
        c.free.len() > 0,
        c.allocs < usize::MAX,
    ensures
        popped(c).wf(),
        c.free.contains(c.free.last()),
        !c.outstanding.contains(c.free.last()),
        forall|x: usize| #[trigger] popped(c).holds(x) == c.holds(x),
{
    let a = c.free.last();
    let c2 = popped(c);
    assert(c.free.contains(a)) by {
        assert(c.free[c.free.len() - 1] == a);
    }
    assert(!c.outstanding.contains(a));
    let d = c.free.drop_last();
    assert forall|x: usize| d.contains(x) implies c.free.contains(x) && x != a by {
        let k = choose|k: int| 0 <= k < d.len() && d[k] == x;
        assert(c.free[k] == x);
        assert(c.free[c.free.len() - 1] == a);
    }
    assert forall|x: usize| #[trigger] c2.holds(x) == c.holds(x) by {
        if c.free.contains(x) && x != a {
            let k = choose|k: int| 0 <= k < c.free.len() && c.free[k] == x;
            if k == c.free.len() - 1 {
            } else {
                assert(d[k] == x);
            }
        }
    }
    assert(c2.wf()) by {
        assert forall|p: int, q: int| 0 <= p < d.len() && 0 <= q < d.len() && p != q implies d[p] != d[q] by {
            assert(d[p] == c.free[p] && d[q] == c.free[q]);
        }
    }
}

/// Handing out the last free object of cache `i` keeps the invariant; the
/// object becomes live, and it overlaps no block that was live before.
pub proof fn lemma_pop_keeps_wf(v: AllocatorView, i: int)
    requires
        v.wf(),
        0 <= i < NUM_CLASSES,
        v.caches[i].free.len() > 0,
        v.caches[i].allocs < usize::MAX,
    ensures
        ({
            let a = v.caches[i].free.last();
            let w = with_cache(v, i, popped(v.caches[i]), v.bump_next);
            &&& w.wf()
            &&& forall|s: int, n: int| w.is_live(s, n) == (v.is_live(s, n) || (s == a && n == slab_size(i)))
            &&& forall|s: int, n: int| v.is_live(s, n) ==> disjoint(a as int, slab_size(i), s, n)
            &&& a as int % slab_size(i) == 0
            &&& range_in(v.managed, a as int, slab_size(i))
        }),
{
    let c = v.caches[i];
    assert(c.wf());
    assert(c.object_size == slab_size(i));
    lemma_slab_size_facts(i);
    let a = c.free.last();
    let c2 = popped(c);
    let w = with_cache(v, i, c2, v.bump_next);
    lemma_cache_pop(c);
    assert forall|j: int, x: int| #[trigger] w.in_cache(j, x) == v.in_cache(j, x) by {
        if j == i && 0 <= x <= usize::MAX {
            assert(c2.holds(x as usize) == c.holds(x as usize));
        }
    }
    assert forall|j: int| 0 <= j < NUM_CLASSES implies #[trigger] w.caches[j].wf() by {
        if j != i {
            assert(w.caches[j] == v.caches[j]);
        }
    }
    assert(w.wf());
    assert(v.in_cache(i, a as int));
    assert forall|s: int, n: int| w.is_live(s, n) == (v.is_live(s, n) || (s == a && n == slab_size(i))) by {
        if w.is_live(s, n) && !w.oversized.contains((s, n)) {
            let j = choose|j: int|
                0 <= j < NUM_CLASSES && n == slab_size(j) && 0 <= s <= usize::MAX
                    && #[trigger] w.caches[j].outstanding.contains(s as usize);
            if j != i || s != a {
                assert(v.caches[j].outstanding.contains(s as usize));
            }
        }
        if v.is_live(s, n) && !v.oversized.contains((s, n)) {
            let j = choose|j: int|
                0 <= j < NUM_CLASSES && n == slab_size(j) && 0 <= s <= usize::MAX
                    && #[trigger] v.caches[j].outstanding.contains(s as usize);
            assert(w.caches[j].outstanding.contains(s as usize));
        }
        if s == a && n == slab_size(i) {
            assert(w.caches[i].outstanding.contains(s as usize));
        }
    }
    assert forall|s: int, n: int| v.is_live(s, n) implies disjoint(a as int, slab_size(i), s, n) by {
        if !v.oversized.contains((s, n)) {
            let j = choose|j: int|
                0 <= j < NUM_CLASSES && n == slab_size(j) && 0 <= s <= usize::MAX
                    && #[trigger] v.caches[j].outstanding.contains(s as usize);
            assert(v.in_cache(j, s));
        }
    }
}

/// Serving `[start, start + size)` from the start of the bump region keeps
/// the invariant; the block becomes live and overlaps no block live before.
pub proof fn lemma_bump_block_keeps_wf(v: AllocatorView, start: int, size: int)
    requires
        v.wf(),
        v.bump_next <= start,
        size >= 0,
        start + size <= v.bump_end,
        v.oversized_allocs < usize::MAX,
    ensures
        ({
            let w = AllocatorView {
                bump_next: (start + size) as usize,
                oversized_allocs: (v.oversized_allocs + 1) as usize,
                oversized: v.oversized.insert((start, size)),
                ..v
            };
            &&& w.wf()
            &&& forall|s: int, n: int| w.is_live(s, n) == (v.is_live(s, n) || (s == start && n == size))
            &&& forall|s: int, n: int| v.is_live(s, n) ==> disjoint(start, size, s, n)
            &&& range_in(v.managed, start, size)
        }),
{
    let w = AllocatorView {
        bump_next: (start + size) as usize,
        oversized_allocs: (v.oversized_allocs + 1) as usize,
        oversized: v.oversized.insert((start, size)),
        ..v
    };
    let bn = v.bump_next as int;
    let be = v.bump_end as int;
    let e = start + size;
    assert forall|j: int, x: int| #[trigger] w.in_cache(j, x) == v.in_cache(j, x) by {}
    assert forall|j: int, a: int, o: (int, int)|
        w.in_cache(j, a) && w.oversized.contains(o) implies disjoint(a, slab_size(j), o.0, o.1) by {
        if o == (start, size) {
            lemma_sub_range_disjoint(a, slab_size(j), bn, be - bn, start, size);
        }
    }
    assert forall|o: (int, int), p: (int, int)|
        w.oversized.contains(o) && w.oversized.contains(p) && o != p implies disjoint(o.0, o.1, p.0, p.1) by {
        if o == (start, size) {
            lemma_sub_range_disjoint(p.0, p.1, bn, be - bn, start, size);
        } else if p == (start, size) {
            lemma_sub_range_disjoint(o.0, o.1, bn, be - bn, start, size);
        }
    }
    assert forall|j: int, a: int| #[trigger] w.in_cache(j, a) implies {
        &&& disjoint(a, slab_size(j), w.bump_next as int, w.bump_end - w.bump_next)
        &&& range_in(w.managed, a, slab_size(j))
    } by {
        assert(v.in_cache(j, a));
        lemma_sub_range_disjoint(a, slab_size(j), bn, be - bn, e, be - e);
    }
    assert forall|x: int| start <= x < start + size implies #[trigger] v.managed.contains(x) by {}
    assert forall|o: (int, int)| #[trigger] w.oversized.contains(o) implies {
        &&& disjoint(o.0, o.1, w.bump_next as int, w.bump_end - w.bump_next)
        &&& range_in(w.managed, o.0, o.1)
        &&& o.1 >= 0
    } by {
        if o != (start, size) {
            lemma_sub_range_disjoint(o.0, o.1, bn, be - bn, e, be - e);
        }
    }
    assert(range_in(w.managed, w.bump_next as int, w.bump_end - w.bump_next)) by {
        assert forall|x: int| w.bump_next <= x < w.bump_end implies #[trigger] w.managed.contains(x) by {
            assert(v.managed.contains(x));
        }
    }
    assert forall|j: int| 0 <= j < NUM_CLASSES implies #[trigger] w.caches[j].wf() by {
        assert(v.caches[j].wf());
    }
    assert(w.wf());
    assert forall|s: int, n: int| w.is_live(s, n) == (v.is_live(s, n) || (s == start && n == size)) by {
        if w.is_live(s, n) && !w.oversized.contains((s, n)) {
            let j = choose|j: int|
                0 <= j < NUM_CLASSES && n == slab_size(j) && 0 <= s <= usize::MAX
                    && #[trigger] w.caches[j].outstanding.contains(s as usize);
            assert(v.caches[j].outstanding.contains(s as usize));
        }
        if v.is_live(s, n) && !v.oversized.contains((s, n)) {
            let j = choose|j: int|
                0 <= j < NUM_CLASSES && n == slab_size(j) && 0 <= s <= usize::MAX
                    && #[trigger] v.caches[j].outstanding.contains(s as usize);
            assert(w.caches[j].outstanding.contains(s as usize));
        }
    }
    assert forall|s: int, n: int| v.is_live(s, n) implies disjoint(start, size, s, n) by {
        if !v.oversized.contains((s, n)) {
            let j = choose|j: int|
                0 <= j < NUM_CLASSES && n == slab_size(j) && 0 <= s <= usize::MAX
                    && #[trigger] v.caches[j].outstanding.contains(s as usize);
            assert(v.in_cache(j, s));
            lemma_sub_range_disjoint(s, n, bn, be - bn, start, size);
        } else {
            lemma_sub_range_disjoint(s, n, bn, be - bn, start, size);
        }
    }
}

/// Returning a handed-out object of cache `i` keeps the invariant, and the
/// object is no longer live.
pub proof fn lemma_dealloc_keeps_wf(v: AllocatorView, i: int, addr: usize)
    requires
        v.wf(),
        0 <= i < NUM_CLASSES,
        v.caches[i].outstanding.contains(addr),
    ensures
        ({
            let w = with_cache(v, i, v.caches[i].dealloc(addr), v.bump_next);
            &&& w.wf()
            &&& forall|s: int, n: int| w.is_live(s, n) == (v.is_live(s, n) && !(s == addr && n == slab_size(i)))
        }),
{
    let c = v.caches[i];
    assert(c.wf());
    let c2 = c.dealloc(addr);
    let w = with_cache(v, i, c2, v.bump_next);
    vstd::set_lib::lemma_set_empty_equivalency_len(c.outstanding);
    assert forall|x: usize| #[trigger] c2.holds(x) == c.holds(x) by {
        if c2.free.contains(x) && x != addr {
            let k = choose|k: int| 0 <= k < c2.free.len() && c2.free[k] == x;
            assert(c.free[k] == x);
        }
        if c.free.contains(x) {
            let k = choose|k: int| 0 <= k < c.free.len() && c.free[k] == x;
            assert(c2.free[k] == x);
        }
        if x == addr {
            assert(c2.free[c.free.len() as int] == x);
        }
    }
    assert(!c.free.contains(addr));
    assert(c2.wf()) by {
        assert forall|a: usize| c2.free.contains(a) implies !c2.outstanding.contains(a) by {
            if a != addr {
                let k = choose|k: int| 0 <= k < c2.free.len() && c2.free[k] == a;
                assert(c.free[k] == a);
            }
        }
        assert forall|p: int, q: int| 0 <= p < c2.free.len() && 0 <= q < c2.free.len() && p != q
            implies c2.free[p] != c2.free[q] by {
            let n = c.free.len() as int;
            if p < n && q < n {
            } else if p < n {
                assert(c.free.contains(c2.free[p]));
            } else {
                assert(c.free.contains(c2.free[q]));
            }
        }
    }
    assert forall|j: int, x: int| #[trigger] w.in_cache(j, x) == v.in_cache(j, x) by {
        if j == i && 0 <= x <= usize::MAX {
            assert(c2.holds(x as usize) == c.holds(x as usize));
        }
    }
    assert forall|j: int| 0 <= j < NUM_CLASSES implies #[trigger] w.caches[j].wf() by {
        if j != i {
            assert(w.caches[j] == v.caches[j]);
        }
    }
    assert(w.wf());
    assert(v.in_cache(i, addr as int));
    lemma_slab_size_facts(i);
    assert(!v.oversized.contains((addr as int, slab_size(i))));
    assert forall|s: int, n: int| w.is_live(s, n) == (v.is_live(s, n) && !(s == addr && n == slab_size(i))) by {
        if w.is_live(s, n) && !w.oversized.contains((s, n)) {
            let j = choose|j: int|
                0 <= j < NUM_CLASSES && n == slab_size(j) && 0 <= s <= usize::MAX
                    && #[trigger] w.caches[j].outstanding.contains(s as usize);
            assert(v.caches[j].outstanding.contains(s as usize));
            if s == addr && n == slab_size(i) {
                lemma_slab_size_facts(i);
                lemma_slab_size_facts(j);
                assert(j == i) by {
                    lemma_slab_size_injective(i, j);
                }
            }
        }
        if v.is_live(s, n) && !v.oversized.contains((s, n)) && !(s == addr && n == slab_size(i)) {
            let j = choose|j: int|
                0 <= j < NUM_CLASSES && n == slab_size(j) && 0 <= s <= usize::MAX
                    && #[trigger] v.caches[j].outstanding.contains(s as usize);
            assert(w.caches[j].outstanding.contains(s as usize));
        }
    }
}

/// Distinct size classes have distinct object sizes.
pub proof fn lemma_slab_size_injective(i: int, j: int)
    requires
        0 <= i < NUM_CLASSES,
        0 <= j < NUM_CLASSES,
        slab_size(i) == slab_size(j),
    ensures
        i == j,
{
}

/// Handing a new region `[start, start + size)` to the allocator keeps the
/// invariant, provided the region overlaps no block the allocator owns.
pub proof fn lemma_init_keeps_wf(v: AllocatorView, start: usize, size: usize)
    requires
        v.wf(),
        start + size <= usize::MAX,
        forall|s: int, n: int| v.is_held(s, n) ==> disjoint(s, n, start as int, size as int),
    ensures
        ({
            let w = AllocatorView {
                bump_next: start,
                bump_end: (start + size) as usize,
                managed: v.managed.union(range_set(start as int, size as int)),
                ..v
            };
            w.wf()
        }),
{
    let w = AllocatorView {
        bump_next: start,
        bump_end: (start + size) as usize,
        managed: v.managed.union(range_set(start as int, size as int)),
        ..v
    };
    assert forall|j: int, x: int| #[trigger] w.in_cache(j, x) == v.in_cache(j, x) by {}
    assert forall|j: int, a: int| #[trigger] w.in_cache(j, a) implies {
        &&& disjoint(a, slab_size(j), w.bump_next as int, w.bump_end - w.bump_next)
        &&& range_in(w.managed, a, slab_size(j))
    } by {
        assert(v.is_held(a, slab_size(j)));
        assert forall|x: int| a <= x < a + slab_size(j) implies #[trigger] w.managed.contains(x) by {
            assert(v.managed.contains(x));
        }
    }
    assert forall|o: (int, int)| #[trigger] w.oversized.contains(o) implies {
        &&& disjoint(o.0, o.1, w.bump_next as int, w.bump_end - w.bump_next)
        &&& range_in(w.managed, o.0, o.1)
        &&& o.1 >= 0
    } by {
        assert(v.is_held(o.0, o.1));
        assert forall|x: int| o.0 <= x < o.0 + o.1 implies #[trigger] w.managed.contains(x) by {
            assert(v.managed.contains(x));
        }
    }
    assert(range_in(w.managed, w.bump_next as int, w.bump_end - w.bump_next)) by {
        assert forall|x: int| w.bump_next <= x < w.bump_end implies #[trigger] w.managed.contains(x) by {
            assert(range_set(start as int, size as int).contains(x));
        }
    }
    assert forall|j: int| 0 <= j < NUM_CLASSES implies #[trigger] w.caches[j].wf() by {
        assert(v.caches[j].wf());
    }
    assert(w.wf());
}

/// Allocation keeps the invariant. A successful allocation returns a block
/// aligned to the layout, inside the regions handed to `init`, that overlaps
/// no block live before, and it is the only block that becomes live; a failed
/// one changes no live block.
pub proof fn lemma_allocate(v: AllocatorView, l: (usize, usize))
    requires
        v.wf(),
        valid_layout(l.0, l.1),
        !v.alloc_overflows(l),
    ensures
        ({
            let (w, r) = v.allocate(l);
            &&& w.wf()
            &&& w.managed == v.managed
            &&& r matches Some(a) ==> {
                &&& a as int % l.1 as int == 0
                &&& range_in(v.managed, a as int, block_len(l))
                &&& forall|s: int, n: int| v.is_live(s, n) ==> disjoint(a as int, block_len(l), s, n)
                &&& forall|s: int, n: int| w.is_live(s, n) == (v.is_live(s, n) || (s == a && n == block_len(l)))
            }
            &&& r is None ==> forall|s: int, n: int| w.is_live(s, n) == v.is_live(s, n)
        }),
{
    let (w, r) = v.allocate(l);
    let align = l.1 as int;
    lemma_pow2_divides(align, align);
    match class_of(request_size(l)) {
        Some(i) => {
            let i = i as int;
            lemma_slab_size_facts(i);
            let c0 = v.caches[i];
            assert(c0.wf());
            let (c1, b1) = c0.refill(v.bump_next, v.bump_end);
            let v1 = with_cache(v, i, c1, b1);
            if c0.free.len() == 0 {
                lemma_grow_keeps_wf(v, i);
            } else {
                assert(v1 == v) by {
                    assert(v.caches.update(i, c0) =~= v.caches);
                }
            }
            assert(v1.caches[i] == c1);
            if c1.free.len() > 0 {
                lemma_pop_keeps_wf(v1, i);
                assert(w.caches =~= v1.caches.update(i, popped(c1)));
                assert(align <= slab_size(i));
                lemma_pow2_divides(align, slab_size(i));
                lemma_multiple_trans(c1.free.last() as int, slab_size(i), align);
            } else {
                assert(w.caches =~= v1.caches);
            }
        },
        None => {
            lemma_round_up(v.bump_next as int, align);
            let start = round_up(v.bump_next as int, align);
            if r is Some {
                lemma_bump_block_keeps_wf(v, start, l.0 as int);
            }
        },
    }
}

} // verus!
