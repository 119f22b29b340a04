//! A physical-frame allocator driven by the boot memory map.
//!
//! The frame allocator hands out the usable 4 KiB frames of the memory map one at a
//! time, in the order of the map, and never reuses a frame.
use vstd::prelude::*;
use x86_64::structures::paging::{PhysFrame, Size4KiB};
use x86_64::PhysAddr;

verus! {

/// Size of a physical frame, in bytes.
pub const FRAME_SIZE: u64 = 4096;

/// Physical addresses are below 2^52: x86_64 rejects any address with a bit
/// in the range 52 to 64 set.
pub const PHYS_ADDR_LIMIT: u64 = 0x10_0000_0000_0000;

/// A region `[start_addr, end_addr)` of physical memory, as the boot memory
/// map describes it, and whether the kernel may use it freely.
#[derive(Clone, Copy, Debug, PartialEq, Eq)]
pub struct MemoryRegion {
    pub start_addr: u64,
    pub end_addr: u64,
    pub usable: bool,
}

/// The addresses that stepping through region `r` by `FRAME_SIZE` yields,
/// if the region is usable: `start_addr`, `start_addr + 4096`, ... below `end_addr`.
pub open spec fn region_steps(r: MemoryRegion) -> Seq<u64> {
    if r.usable && r.start_addr < r.end_addr {
        Seq::new(
            ((r.end_addr - r.start_addr + FRAME_SIZE - 1) / FRAME_SIZE as int) as nat,
            |k: int| (r.start_addr + k * FRAME_SIZE) as u64,
        )
    } else {
        Seq::empty()
    }
}

/// The addresses of the usable frames of a memory map, region after region.
pub open spec fn frame_steps(regions: Seq<MemoryRegion>) -> Seq<u64>
    decreases regions.len(),
{
    if regions.len() == 0 {
        Seq::empty()
    } else {
        frame_steps(regions.drop_last()) + region_steps(regions.last())
    }
}

/// The start of the 4 KiB frame that holds `addr`.
pub open spec fn frame_start(addr: u64) -> u64 {
    (addr - addr % FRAME_SIZE) as u64
}

/// Calls x86_64's `PhysFrame::<Size4KiB>::containing_address` on the
/// physical address `addr` and returns the frame's start address.
///
/// x86_64 aligns the address down to 4096 (`addr & !(4096 - 1)`), which is
/// what the contract states; `PhysAddr::new` panics when a bit in the range
/// 52 to 64 is set, so such addresses are excluded.
#[verifier::external_body]
fn containing_frame(addr: u64) -> (r: u64)
    requires
        addr < PHYS_ADDR_LIMIT,
    ensures
        r == frame_start(addr),
{
    PhysFrame::<Size4KiB>::containing_address(PhysAddr::new(addr)).start_address().as_u64()
}

/// A physical-frame allocator backed by the boot memory map.
///
/// Hands out the usable regions one 4 KiB frame at a time. Frames are never
/// reused: this is boot-time allocation, where simplicity matters more than
/// recycling.
pub struct BootInfoFrameAllocator<'a> {
    /// The memory map.
    memory_map: &'a [MemoryRegion],
    /// Index of the next frame to hand out (monotonically increasing).
    next: usize,
}

impl<'a> BootInfoFrameAllocator<'a> {
    /// The memory map this allocator hands frames out of.
    pub closed spec fn regions(&self) -> Seq<MemoryRegion> {
        self.memory_map@
    }

    /// How many frames were asked for so far.
    pub closed spec fn next_index(&self) -> int {
        self.next as int
    }

    /// Whether every step handed out so far lies below `PHYS_ADDR_LIMIT`, so
    /// that x86_64 accepted it as a physical address.
    pub closed spec fn steps_in_range(&self) -> bool {
        forall|k: int| 0 <= k < self.next && k < frame_steps(self.memory_map@).len()
            ==> #[trigger] frame_steps(self.memory_map@)[k] < PHYS_ADDR_LIMIT
    }

    /// Creates a frame allocator over `memory_map` that has handed out nothing.
    ///
    /// The usable regions of the map must be memory that nothing else uses.
    pub fn init(memory_map: &'a [MemoryRegion]) -> (r: Self)
        ensures
            r.regions() == memory_map@,
            r.next_index() == 0,
            r.steps_in_range(),
    {
        BootInfoFrameAllocator { memory_map, next: 0 }
    }

    /// How many frames were asked for so far.
    pub fn requested(&self) -> (r: usize)
        ensures
            r == self.next_index(),
    {
        self.next
    }

    /// The step through the usable regions that the next call of
    /// [`allocate_frame`](BootInfoFrameAllocator::allocate_frame) turns into a
    /// frame, or `None` once they are exhausted.
    pub fn next_step(&self) -> (r: Option<u64>)
        ensures
            r == (if self.next_index() < frame_steps(self.regions()).len() {
                Some(frame_steps(self.regions())[self.next_index()])
            } else {
                None::<u64>
            }),
    {
        self.step_at(self.next)
    }

    /// The `n`-th step through the usable regions of the map, region after
    /// region, or `None` when there are fewer steps.
    fn step_at(&self, n: usize) -> (r: Option<u64>)
        ensures
            r == (if n < frame_steps(self.regions()).len() {
                Some(frame_steps(self.regions())[n as int])
            } else {
                None::<u64>
            }),
    {
        let ghost all = self.memory_map@;
        let mut remaining: u64 = n as u64;
        let mut i: usize = 0;
        while i < self.memory_map.len()
            invariant
                i <= all.len(),
                all == self.memory_map@,
                remaining + frame_steps(all.subrange(0, i as int)).len() == n,
            decreases all.len() - i,
        {
            let r = self.memory_map[i];
            proof {
                lemma_frame_steps_push(all, i as int);
            }
            if r.usable && r.start_addr < r.end_addr {
                let count = (r.end_addr - r.start_addr - 1) / FRAME_SIZE + 1;
                proof {
                    assert(count == (r.end_addr - r.start_addr + FRAME_SIZE - 1) / FRAME_SIZE as int);
                }
                if remaining < count {
                    proof {
                        assert(remaining * FRAME_SIZE < r.end_addr - r.start_addr) by (nonlinear_arith)
                            requires
                                remaining < count,
                                count == (r.end_addr - r.start_addr - 1) / 4096 + 1,
                                r.start_addr < r.end_addr,
                        ;
                        assert(frame_steps(all.subrange(0, i + 1))[n as int] == region_steps(r)[remaining as int]);
                        lemma_frame_steps_prefix(all, i + 1, n as int);
                    }
                    return Some(r.start_addr + remaining * FRAME_SIZE);
                }
                remaining = remaining - count;
            }
            i = i + 1;
        }
        proof {
            assert(all.subrange(0, all.len() as int) =~= all);
        }
        None
    }

    /// Allocates the next usable 4 KiB frame and returns its start address.
    ///
    /// The `n`-th call returns the frame of the `n`-th step through the
    /// usable regions, or `None` once they are exhausted.
    pub fn allocate_frame(&mut self) -> (r: Option<u64>)
        requires
            old(self).steps_in_range(),
            old(self).next_index() < usize::MAX,
            old(self).next_index() < frame_steps(old(self).regions()).len()
                ==> frame_steps(old(self).regions())[old(self).next_index()] < PHYS_ADDR_LIMIT,
        ensures
            final(self).regions() == old(self).regions(),
            final(self).next_index() == old(self).next_index() + 1,
            final(self).steps_in_range(),
            r == (if old(self).next_index() < frame_steps(old(self).regions()).len() {
                Some(frame_start(frame_steps(old(self).regions())[old(self).next_index()]))
            } else {
                None::<u64>
            }),
    {
        let step = self.step_at(self.next);
        self.next = self.next + 1;
        match step {
            Some(addr) => Some(containing_frame(addr)),
            None => None,
        }
    }
}

/// The steps of a longer prefix of the map extend those of a shorter one by
/// the steps of the next region.
proof fn lemma_frame_steps_push(regions: Seq<MemoryRegion>, i: int)
    requires
        0 <= i < regions.len(),
    ensures
        frame_steps(regions.subrange(0, i + 1)) == frame_steps(regions.subrange(0, i)) + region_steps(regions[i]),
{
    let p = regions.subrange(0, i + 1);
    assert(p.drop_last() =~= regions.subrange(0, i));
}

/// The steps of a prefix of the map are a prefix of the steps of the whole map.
proof fn lemma_frame_steps_prefix(regions: Seq<MemoryRegion>, j: int, n: int)
    requires
        0 <= j <= regions.len(),
        0 <= n < frame_steps(regions.subrange(0, j)).len(),
    ensures
        n < frame_steps(regions).len(),
        frame_steps(regions)[n] == frame_steps(regions.subrange(0, j))[n],
    decreases regions.len() - j,
{
    if j == regions.len() {
        assert(regions.subrange(0, j) =~= regions);
    } else {
        lemma_frame_steps_push(regions, j);
        lemma_frame_steps_prefix(regions, j + 1, n);
    }
}

/// Whether the usable regions of a memory map start on frame boundaries and
/// share no byte.
pub open spec fn well_formed_map(regions: Seq<MemoryRegion>) -> bool {
    &&& forall|i: int| 0 <= i < regions.len() && #[trigger] regions[i].usable
        ==> regions[i].start_addr % FRAME_SIZE == 0
    &&& forall|i1: int, i2: int|
        #![trigger regions[i1], regions[i2]]
        0 <= i1 < regions.len() && 0 <= i2 < regions.len() && i1 != i2 && regions[i1].usable
            && regions[i2].usable ==> regions[i1].end_addr <= regions[i2].start_addr
            || regions[i2].end_addr <= regions[i1].start_addr
}

/// Once the frame allocator has run out of frames it stays out: the `k`-th
/// call returns `None` exactly when `k` is at least the number of steps, so
/// every call after the first `None` returns `None` too.
pub proof fn lemma_exhausted_stays_exhausted(regions: Seq<MemoryRegion>, k: int, later: int)
    requires
        frame_steps(regions).len() <= k <= later,
    ensures
        !(later < frame_steps(regions).len()),
{
}

/// Every 4 KiB step of every usable region is handed out, however large the
/// region: for a usable region `[s, e)` of the map and any `k` with
/// `s + k * 4096 < e`, the step `s + k * 4096` comes right after the steps of
/// the regions before it and the `k` steps before it in its own region, so a
/// usable region yields ceil((e - s) / 4096) frames.
pub proof fn lemma_every_step_handed_out(regions: Seq<MemoryRegion>, i: int, k: int) -> (n: int)
    requires
        0 <= i < regions.len(),
        regions[i].usable,
        0 <= k,
        regions[i].start_addr + k * FRAME_SIZE < regions[i].end_addr,
    ensures
        n == frame_steps(regions.subrange(0, i)).len() + k,
        n < frame_steps(regions).len(),
        frame_steps(regions)[n] == regions[i].start_addr + k * FRAME_SIZE,
    decreases regions.len(),
{
    let pre = regions.drop_last();
    let last = regions.last();
    if i == regions.len() - 1 {
        assert(regions.subrange(0, i) =~= pre);
        assert(last == regions[i]);
        let s = last.start_addr as int;
        let e = last.end_addr as int;
        assert(k < (e - s + 4095) / 4096) by (nonlinear_arith)
            requires
                0 <= k,
                s + k * 4096 < e,
        ;
        assert(0 <= k * FRAME_SIZE) by (nonlinear_arith)
            requires
                0 <= k,
        ;
        let n = frame_steps(pre).len() + k;
        assert(frame_steps(regions)[n] == region_steps(last)[k]);
        n
    } else {
        assert(pre[i] == regions[i]);
        let n = lemma_every_step_handed_out(pre, i, k);
        assert(pre.subrange(0, i) =~= regions.subrange(0, i));
        assert(frame_steps(regions)[n] == frame_steps(pre)[n]);
        n
    }
}

/// A well-formed memory map stays well formed without its last region.
proof fn lemma_well_formed_map_drop_last(regions: Seq<MemoryRegion>)
    requires
        well_formed_map(regions),
        regions.len() > 0,
    ensures
        well_formed_map(regions.drop_last()),
{
    let pre = regions.drop_last();
    assert forall|i: int| 0 <= i < pre.len() && #[trigger] pre[i].usable
        implies pre[i].start_addr % FRAME_SIZE == 0 by {
        assert(pre[i] == regions[i]);
    }
    assert forall|i1: int, i2: int|
        0 <= i1 < pre.len() && 0 <= i2 < pre.len() && i1 != i2 && #[trigger] pre[i1].usable
            && #[trigger] pre[i2].usable implies pre[i1].end_addr <= pre[i2].start_addr
            || pre[i2].end_addr <= pre[i1].start_addr by {
        assert(pre[i1] == regions[i1] && pre[i2] == regions[i2]);
    }
}

/// Every step through a memory map is a frame boundary inside one of its
/// usable regions; a step of the last region's part lies in the last region.
proof fn lemma_step_in_region(regions: Seq<MemoryRegion>, n: int) -> (i: int)
    requires
        well_formed_map(regions),
        0 <= n < frame_steps(regions).len(),
    ensures
        0 <= i < regions.len(),
        regions[i].usable,
        regions[i].start_addr <= frame_steps(regions)[n] < regions[i].end_addr,
        frame_steps(regions)[n] % FRAME_SIZE == 0,
        n >= frame_steps(regions.drop_last()).len() ==> i == regions.len() - 1,
    decreases regions.len(),
{
    let pre = regions.drop_last();
    let last = regions.last();
    let m = frame_steps(pre).len() as int;
    if n < m {
        lemma_well_formed_map_drop_last(regions);
        let i = lemma_step_in_region(pre, n);
        assert(pre[i] == regions[i]);
        i
    } else {
        let k = n - m;
        let i = regions.len() - 1;
        assert(regions[i] == last);
        let x = last.start_addr + k * FRAME_SIZE;
        assert(frame_steps(regions)[n] == region_steps(last)[k]);
        assert(k * FRAME_SIZE < last.end_addr - last.start_addr) by (nonlinear_arith)
            requires
                0 <= k < (last.end_addr - last.start_addr + 4095) / 4096,
                last.start_addr < last.end_addr,
        ;
        assert(0 <= k * FRAME_SIZE) by (nonlinear_arith)
            requires
                0 <= k,
        ;
        crate::slab::align::lemma_multiple_step(last.start_addr as int, k, FRAME_SIZE as int);
        i
    }
}

/// The frame allocator never hands out one frame twice: over a memory map
/// whose usable regions start on frame boundaries and do not overlap, any
/// two different calls return different frames.
pub proof fn lemma_frames_never_reused(regions: Seq<MemoryRegion>, j: int, k: int)
    requires
        well_formed_map(regions),
        0 <= j < k < frame_steps(regions).len(),
    ensures
        frame_start(frame_steps(regions)[j]) != frame_start(frame_steps(regions)[k]),
    decreases regions.len(),
{
    let steps = frame_steps(regions);
    let ij = lemma_step_in_region(regions, j);
    let ik = lemma_step_in_region(regions, k);
    assert(frame_start(steps[j]) == steps[j]);
    assert(frame_start(steps[k]) == steps[k]);
    let pre = regions.drop_last();
    let last = regions.last();
    let m = frame_steps(pre).len() as int;
    if k < m {
        lemma_well_formed_map_drop_last(regions);
        assert(frame_steps(pre)[j] == steps[j] && frame_steps(pre)[k] == steps[k]);
        lemma_frames_never_reused(pre, j, k);
        assert(frame_start(frame_steps(pre)[j]) == frame_steps(pre)[j]) by {
            let _ = lemma_step_in_region(pre, j);
        }
        assert(frame_start(frame_steps(pre)[k]) == frame_steps(pre)[k]) by {
            let _ = lemma_step_in_region(pre, k);
        }
    } else if j < m {
        assert(ik == regions.len() - 1);
        if ij == ik {
            let _ = lemma_step_in_region(pre, j);
        }
    } else {
        let a = j - m;
        let b = k - m;
        assert(steps[j] == region_steps(last)[a]);
        assert(steps[k] == region_steps(last)[b]);
        assert(a * FRAME_SIZE < b * FRAME_SIZE) by (nonlinear_arith)
            requires
                a < b,
        ;
    }
}

} // verus!
