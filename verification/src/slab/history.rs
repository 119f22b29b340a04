//! Properties of whole histories of calls on the allocator.
use vstd::prelude::*;
use vstd::layout::valid_layout;
use crate::slab::allocator::{block_len, disjoint, request_size, AllocatorView};
use crate::slab::classes::{class_of, lemma_slab_size_facts, NUM_CLASSES};
use crate::slab::preserve::{lemma_allocate, lemma_dealloc_keeps_wf};

verus! {

/// One call on the allocator: an allocation for a layout `(size, align)`, or
/// the return of an address with the layout it was allocated with.
pub enum Call {
    Alloc((usize, usize)),
    Dealloc(usize, (usize, usize)),
}

/// The allocator after one call.
pub open spec fn step(v: AllocatorView, c: Call) -> AllocatorView {
    match c {
        Call::Alloc(l) => v.allocate(l).0,
        Call::Dealloc(p, l) => v.deallocate(p, l),
    }
}

/// The allocator after a sequence of calls, first to last.
pub open spec fn replay(v: AllocatorView, calls: Seq<Call>) -> AllocatorView
    decreases calls.len(),
{
    if calls.len() == 0 {
        v
    } else {
        step(replay(v, calls.drop_last()), calls.last())
    }
}

/// Whether a call may be made on `v`: its layout is valid, an allocation
/// does not overflow, and a returned address is handed out in its class.
pub open spec fn allowed(v: AllocatorView, c: Call) -> bool {
    match c {
        Call::Alloc(l) => valid_layout(l.0, l.1) && !v.alloc_overflows(l),
        Call::Dealloc(p, l) => valid_layout(l.0, l.1) && v.can_deallocate(p, l),
    }
}

/// Whether every call of a sequence may be made on the state before it.
pub open spec fn allowed_history(v: AllocatorView, calls: Seq<Call>) -> bool
    decreases calls.len(),
{
    calls.len() == 0 || (allowed_history(v, calls.drop_last()) && allowed(replay(v, calls.drop_last()), calls.last()))
}

/// How many allocations of a history succeeded in size class `i`.
pub open spec fn class_allocs(v: AllocatorView, calls: Seq<Call>, i: int) -> int
    decreases calls.len(),
{
    if calls.len() == 0 {
        0
    } else {
        class_allocs(v, calls.drop_last(), i) + match calls.last() {
            Call::Alloc(l) => if class_of(request_size(l)) == Some(i as usize)
                && replay(v, calls.drop_last()).allocate(l).1 is Some {
                1int
            } else {
                0int
            },
            Call::Dealloc(_, _) => 0int,
        }
    }
}

/// How many calls of a history returned an object of size class `i`.
pub open spec fn class_frees(calls: Seq<Call>, i: int) -> int
    decreases calls.len(),
{
    if calls.len() == 0 {
        0
    } else {
        class_frees(calls.drop_last(), i) + match calls.last() {
            Call::Dealloc(_, l) => if class_of(request_size(l)) == Some(i as usize) {
                1int
            } else {
                0int
            },
            Call::Alloc(_) => 0int,
        }
    }
}

/// How many allocations of a history succeeded from the bump region.
pub open spec fn bump_allocs(v: AllocatorView, calls: Seq<Call>) -> int
    decreases calls.len(),
{
    if calls.len() == 0 {
        0
    } else {
        bump_allocs(v, calls.drop_last()) + match calls.last() {
            Call::Alloc(l) => if class_of(request_size(l)) is None && replay(v, calls.drop_last()).allocate(l).1 is Some {
                1int
            } else {
                0int
            },
            Call::Dealloc(_, _) => 0int,
        }
    }
}

/// The counts of a history of one call are those of the call itself.
proof fn lemma_single_call_counts(v: AllocatorView, c: Call, i: int)
    ensures
        class_allocs(v, seq![c], i) == match c {
            Call::Alloc(l) => if class_of(request_size(l)) == Some(i as usize) && v.allocate(l).1 is Some {
                1int
            } else {
                0int
            },
            Call::Dealloc(_, _) => 0int,
        },
        class_frees(seq![c], i) == match c {
            Call::Dealloc(_, l) => if class_of(request_size(l)) == Some(i as usize) {
                1int
            } else {
                0int
            },
            Call::Alloc(_) => 0int,
        },
        bump_allocs(v, seq![c]) == match c {
            Call::Alloc(l) => if class_of(request_size(l)) is None && v.allocate(l).1 is Some {
                1int
            } else {
                0int
            },
            Call::Dealloc(_, _) => 0int,
        },
{
    let s1 = seq![c];
    let e = Seq::<Call>::empty();
    assert(s1.drop_last() =~= e);
    assert(s1.last() == c);
    assert(replay(v, e) == v);
    assert(class_allocs(v, e, i) == 0);
    assert(class_frees(e, i) == 0);
    assert(bump_allocs(v, e) == 0);
}

/// One allowed call keeps the invariant, counts itself in the counters of
/// its class, and keeps every block served from the bump region.
proof fn lemma_step(v: AllocatorView, c: Call, i: int)
    requires
        v.wf(),
        allowed(v, c),
        0 <= i < NUM_CLASSES,
    ensures
        step(v, c).wf(),
        v.oversized.subset_of(step(v, c).oversized),
        step(v, c).bump_end == v.bump_end,
        step(v, c).bump_next >= v.bump_next,
        step(v, c).caches[i].allocs == v.caches[i].allocs + class_allocs(v, seq![c], i),
        step(v, c).caches[i].deallocs == v.caches[i].deallocs + class_frees(seq![c], i),
        step(v, c).oversized_allocs == v.oversized_allocs + bump_allocs(v, seq![c]),
{
    lemma_single_call_counts(v, c, i);
    match c {
        Call::Alloc(l) => {
            lemma_allocate(v, l);
            crate::slab::laws::lemma_bump_only_shrinks(v, l);
            if let Some(j) = class_of(request_size(l)) {
                let j = j as int;
                lemma_slab_size_facts(j);
                let c0 = v.caches[j];
                assert(c0.wf());
                if c0.free.len() == 0 {
                    crate::slab::preserve::lemma_grow_keeps_wf(v, j);
                }
                assert(step(v, c).caches == v.caches.update(j, v.caches[j].allocate(v.bump_next, v.bump_end).0));
                if j != i {
                    assert(step(v, c).caches[i] == v.caches[i]);
                } else {
                    let (c1, b1) = c0.refill(v.bump_next, v.bump_end);
                    assert(c1.deallocs == c0.deallocs);
                    assert(c0.allocate(v.bump_next, v.bump_end).0.deallocs == c1.deallocs);
                    assert(step(v, c).caches[i].deallocs == v.caches[i].deallocs);
                }
            } else {
                assert(step(v, c).caches == v.caches);
            }
            assert(class_frees(seq![c], i) == 0);
        },
        Call::Dealloc(p, l) => {
            if let Some(j) = class_of(request_size(l)) {
                lemma_dealloc_keeps_wf(v, j as int, p);
                assert(v.caches[j as int].wf());
                vstd::set_lib::lemma_set_empty_equivalency_len(v.caches[j as int].outstanding);
                if j != i {
                    assert(step(v, c).caches[i] == v.caches[i]);
                }
            }
        },
    }
}

/// The counters of every size class, and the count of allocations from the
/// bump region, count the successful calls of a history: each successful
/// allocation of a class adds one to its `allocs`, each return to a class
/// adds one to its `deallocs`, and nothing else changes them. The end of the
/// bump region stays, its start only moves up, and the free bytes reported
/// are the bytes between them.
pub proof fn lemma_counters_count_calls(v: AllocatorView, calls: Seq<Call>, i: int)
    requires
        v.wf(),
        allowed_history(v, calls),
        0 <= i < NUM_CLASSES,
    ensures
        replay(v, calls).wf(),
        replay(v, calls).caches[i].allocs == v.caches[i].allocs + class_allocs(v, calls, i),
        replay(v, calls).caches[i].deallocs == v.caches[i].deallocs + class_frees(calls, i),
        replay(v, calls).oversized_allocs == v.oversized_allocs + bump_allocs(v, calls),
        v.oversized.subset_of(replay(v, calls).oversized),
        replay(v, calls).bump_end == v.bump_end,
        v.bump_next <= replay(v, calls).bump_next,
        replay(v, calls).bump_free_bytes() == replay(v, calls).bump_end - replay(v, calls).bump_next,
    decreases calls.len(),
{
    if calls.len() > 0 {
        let pre = calls.drop_last();
        let c = calls.last();
        lemma_counters_count_calls(v, pre, i);
        let u = replay(v, pre);
        lemma_step(u, c, i);
        lemma_single_call_counts(u, c, i);
    }
}

/// Every prefix of an allowed history is allowed, and the call after it may
/// be made on the state it leaves.
proof fn lemma_allowed_prefix(v: AllocatorView, calls: Seq<Call>, k: int)
    requires
        allowed_history(v, calls),
        0 <= k < calls.len(),
    ensures
        allowed_history(v, calls.subrange(0, k)),
        allowed(replay(v, calls.subrange(0, k)), calls[k]),
    decreases calls.len(),
{
    let pre = calls.drop_last();
    if k == calls.len() - 1 {
        assert(pre =~= calls.subrange(0, k));
    } else {
        lemma_allowed_prefix(v, pre, k);
        assert(pre.subrange(0, k) =~= calls.subrange(0, k));
        assert(pre[k] == calls[k]);
    }
}

/// A block served from the bump region stays consumed for the rest of any
/// allowed history: returning it changes nothing, and no later successful
/// allocation, of any layout, hands out a block that overlaps it.
pub proof fn lemma_bump_block_stays_consumed(v: AllocatorView, calls: Seq<Call>, s: int, n: int, k: int)
    requires
        v.wf(),
        v.oversized.contains((s, n)),
        allowed_history(v, calls),
        0 <= k < calls.len(),
        calls[k] matches Call::Alloc(l) && replay(v, calls.subrange(0, k)).allocate(l).1 is Some,
    ensures
        ({
            let l = calls[k]->Alloc_0;
            let a = replay(v, calls.subrange(0, k)).allocate(l).1->0;
            &&& replay(v, calls).oversized.contains((s, n))
            &&& disjoint(a as int, block_len(l), s, n)
        }),
{
    let pre = calls.subrange(0, k);
    lemma_allowed_prefix(v, calls, k);
    lemma_counters_count_calls(v, pre, 0);
    lemma_counters_count_calls(v, calls, 0);
    let u = replay(v, pre);
    let l = calls[k]->Alloc_0;
    assert(u.is_live(s, n));
    lemma_allocate(u, l);
}

} // verus!
