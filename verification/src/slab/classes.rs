//! The size classes of the allocator and the constants of slab colouring.
use vstd::prelude::*;
use vstd::arithmetic::power::pow;
use vstd::arithmetic::power2::{is_pow2, is_pow2_equiv, lemma2_to64, lemma_pow2, pow2};

verus! {

/// Number of size classes, and so of caches.
pub const NUM_CLASSES: usize = 9;

/// The largest size class, in bytes; larger requests go to the bump region.
pub const LARGEST_CLASS: usize = 2048;

/// L1 cache line size on x86_64, in bytes.
pub const CACHE_LINE_SIZE: usize = 64;

/// Number of distinct colour offsets cycled per cache.
pub const NUM_COLORS: usize = 4;

/// The most bytes that one refill of a cache carves from the bump region.
pub const SLAB_BYTES: usize = 4096;

/// The smallest object size: a free object must hold a free-list link.
pub const LINK_SIZE: usize = 8;

/// Object size of size class `i`: 8, 16, 32, ..., 2048 bytes.
pub open spec fn slab_size(i: int) -> int {
    if i <= 0 {
        8
    } else if i == 1 {
        16
    } else if i == 2 {
        32
    } else if i == 3 {
        64
    } else if i == 4 {
        128
    } else if i == 5 {
        256
    } else if i == 6 {
        512
    } else if i == 7 {
        1024
    } else {
        2048
    }
}

/// The colour step of a cache of `object_size` bytes: `max(CACHE_LINE_SIZE, object_size)`.
pub open spec fn color_step_for(object_size: int) -> int {
    if object_size >= CACHE_LINE_SIZE {
        object_size
    } else {
        CACHE_LINE_SIZE as int
    }
}

/// The size class that serves a request of `size` bytes: the smallest class
/// whose objects hold `size` bytes, or none when `size` exceeds every class.
pub open spec fn class_of(size: int) -> Option<usize> {
    if size <= 8 {
        Some(0)
    } else if size <= 16 {
        Some(1)
    } else if size <= 32 {
        Some(2)
    } else if size <= 64 {
        Some(3)
    } else if size <= 128 {
        Some(4)
    } else if size <= 256 {
        Some(5)
    } else if size <= 512 {
        Some(6)
    } else if size <= 1024 {
        Some(7)
    } else if size <= 2048 {
        Some(8)
    } else {
        None
    }
}

/// Class `i`'s objects, and its colour step, are powers of two, and the
/// colour step is a multiple of the object size.
pub proof fn lemma_slab_size_facts(i: int)
    requires
        0 <= i < NUM_CLASSES,
    ensures
        is_pow2(slab_size(i)),
        LINK_SIZE <= slab_size(i) <= LARGEST_CLASS,
        color_step_for(slab_size(i)) % slab_size(i) == 0,
        color_step_for(slab_size(i)) * NUM_COLORS <= 8192,
{
    let e: nat = (i + 3) as nat;
    lemma2_to64();
    lemma_pow2(e);
    assert(pow2(e) == slab_size(i));
    assert(pow(2, e) == slab_size(i));
    is_pow2_equiv(slab_size(i));
    if i == 0 {
        assert(64int % 8 == 0);
    } else if i == 1 {
        assert(64int % 16 == 0);
    } else if i == 2 {
        assert(64int % 32 == 0);
    } else {
        vstd::arithmetic::div_mod::lemma_mod_self_0(slab_size(i));
    }
}

/// A request that exceeds class `i - 1` but fits class `i` is served by class `i`.
pub proof fn lemma_class_of_smallest_fit(size: int, i: int)
    requires
        0 <= i < NUM_CLASSES,
        size <= slab_size(i),
        i == 0 || slab_size(i - 1) < size,
    ensures
        class_of(size) == Some(i as usize),
{
    if i == 0 {
    } else if i == 1 {
    } else if i == 2 {
    } else if i == 3 {
    } else if i == 4 {
    } else if i == 5 {
    } else if i == 6 {
    } else if i == 7 {
    } else {
    }
}

/// The object size of size class `i`.
pub fn slab_size_at(i: usize) -> (r: usize)
    requires
        i < NUM_CLASSES,
    ensures
        r == slab_size(i as int),
{
    match i {
        0 => 8,
        1 => 16,
        2 => 32,
        3 => 64,
        4 => 128,
        5 => 256,
        6 => 512,
        7 => 1024,
        _ => 2048,
    }
}

} // verus!
