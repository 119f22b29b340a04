use slab_allocator::memory::{BootInfoFrameAllocator, MemoryRegion};

fn region(start_addr: u64, end_addr: u64, usable: bool) -> MemoryRegion {
    MemoryRegion { start_addr, end_addr, usable }
}

#[test]
fn frames_come_from_usable_regions_in_order() {
    let map = [
        region(0x1000, 0x3000, true),
        region(0x3000, 0x5000, false),
        region(0x5000, 0x6001, true),
        region(0x8000, 0x8000, true),
    ];
    let mut fa = BootInfoFrameAllocator::init(&map);
    assert_eq!(fa.allocate_frame(), Some(0x1000));
    assert_eq!(fa.allocate_frame(), Some(0x2000));
    assert_eq!(fa.allocate_frame(), Some(0x5000));
    assert_eq!(fa.allocate_frame(), Some(0x6000));
    assert_eq!(fa.allocate_frame(), None);
    assert_eq!(fa.allocate_frame(), None);
}

#[test]
fn frame_is_the_one_containing_the_step() {
    let map = [region(0x1234, 0x3000, true)];
    let mut fa = BootInfoFrameAllocator::init(&map);
    assert_eq!(fa.allocate_frame(), Some(0x1000));
    assert_eq!(fa.allocate_frame(), Some(0x2000));
    assert_eq!(fa.allocate_frame(), None);
}

#[test]
fn empty_map_has_no_frames() {
    let map: [MemoryRegion; 0] = [];
    let mut fa = BootInfoFrameAllocator::init(&map);
    assert_eq!(fa.allocate_frame(), None);
}
