use memcore::frame_alloc::BootInfoFrameAllocator;
use memcore::frame_alloc::FrameSource;
use memcore::frame_alloc::RegionDescriptor;

fn region(base: u64, len: u64, usable: bool) -> RegionDescriptor {
    RegionDescriptor { base, len, usable }
}

#[test]
fn two_frame_region_scenario() {
    // One usable region of two 4 KiB frames: the allocator hands out both
    // frame bases in order, then stays empty.
    let regions = vec![region(0x100000, 0x2000, true)];
    let mut alloc = BootInfoFrameAllocator::init(regions);
    assert_eq!(alloc.allocate_frame(), Some(0x100000));
    assert_eq!(alloc.allocate_frame(), Some(0x101000));
    assert_eq!(alloc.allocate_frame(), None);
    assert_eq!(alloc.allocate_frame(), None);
}

#[test]
fn empty_source_always_empty() {
    let mut src = FrameSource::Empty;
    for _ in 0..5 {
        assert_eq!(src.allocate_frame(), None);
    }
}

#[test]
fn unusable_regions_are_skipped() {
    let regions = vec![
        region(0x1000, 0x1000, false),
        region(0x5000, 0x2000, true),
        region(0x9000, 0x1000, false),
    ];
    let mut alloc = BootInfoFrameAllocator::init(regions);
    assert_eq!(alloc.allocate_frame(), Some(0x5000));
    assert_eq!(alloc.allocate_frame(), Some(0x6000));
    assert_eq!(alloc.allocate_frame(), None);
}

#[test]
fn frames_come_in_region_order() {
    let regions = vec![region(0x1000, 0x1000, true), region(0x100000, 0x1000, true)];
    let mut alloc = BootInfoFrameAllocator::init(regions);
    assert_eq!(alloc.allocate_frame(), Some(0x1000));
    assert_eq!(alloc.allocate_frame(), Some(0x100000));
    assert_eq!(alloc.allocate_frame(), None);
}

#[test]
fn empty_inventory_has_nothing() {
    let mut alloc = BootInfoFrameAllocator::init(Vec::new());
    assert_eq!(alloc.allocate_frame(), None);
}

#[test]
fn zero_length_region_yields_nothing() {
    let regions = vec![region(0x1000, 0, true)];
    let mut alloc = BootInfoFrameAllocator::init(regions);
    assert_eq!(alloc.allocate_frame(), None);
}

#[test]
fn boot_source_matches_allocator() {
    let regions = vec![region(0x100000, 0x2000, true)];
    let mut src = FrameSource::Boot(BootInfoFrameAllocator::init(regions));
    assert_eq!(src.allocate_frame(), Some(0x100000));
    assert_eq!(src.allocate_frame(), Some(0x101000));
    assert_eq!(src.allocate_frame(), None);
}

#[test]
fn allocated_frames_are_pairwise_distinct() {
    let regions = vec![region(0x2000, 0x2000, true), region(0x8000, 0x2000, true)];
    let mut alloc = BootInfoFrameAllocator::init(regions);
    let mut frames: Vec<u64> = Vec::new();
    while let Some(f) = alloc.allocate_frame() {
        frames.push(f);
    }
    assert_eq!(frames.len(), 4);
    for a in 0..frames.len() {
        for b in 0..frames.len() {
            if a != b {
                assert_ne!(frames[a], frames[b]);
            }
        }
    }
}

#[test]
fn exhaustion_is_permanent() {
    // Once the count of successful allocations equals the usable-frame
    // count, the answer is empty and stays empty.
    let regions = vec![region(0x4000, 0x3000, true)];
    let mut alloc = BootInfoFrameAllocator::init(regions);
    let mut successes = 0;
    while alloc.allocate_frame().is_some() {
        successes += 1;
    }
    assert_eq!(successes, 3);
    for _ in 0..10 {
        assert_eq!(alloc.allocate_frame(), None);
    }
}

#[test]
fn region_at_top_of_address_space() {
    let regions = vec![region(0xffff_ffff_ffff_f000, 0x1000, true)];
    let mut alloc = BootInfoFrameAllocator::init(regions);
    assert_eq!(alloc.allocate_frame(), Some(0xffff_ffff_ffff_f000));
    assert_eq!(alloc.allocate_frame(), None);
}
