use memcore::frame_alloc::BootInfoFrameAllocator;
use memcore::frame_alloc::FrameSource;
use memcore::frame_alloc::RegionDescriptor;
use memcore::mapper::init;
use memcore::mapper::MapError;
use memcore::mapper::Mapper;
use memcore::mapper::TableSlot;
use memcore::page_table::PageFlags;
use memcore::page_table::PageTable;
use memcore::page_table::PageTableEntry;

fn empty_root_mapper() -> Mapper {
    let slots = vec![TableSlot { base: 0x1000, level: 4, table: PageTable::empty() }];
    init(0, 0x1000, slots)
}

fn boot_source(base: u64, len: u64) -> FrameSource {
    let regions = vec![RegionDescriptor { base, len, usable: true }];
    FrameSource::Boot(BootInfoFrameAllocator::init(regions))
}

fn link(frame: u64) -> PageTableEntry {
    PageTableEntry { present: true, writable: true, huge: false, frame }
}

#[test]
fn translate_unmapped_is_empty_and_repeatable() {
    let mapper = empty_root_mapper();
    assert_eq!(mapper.translate(0xdead000), None);
    assert_eq!(mapper.translate(0xdead000), None);
    assert_eq!(mapper.translate(0), None);
}

#[test]
fn translate_hand_built_chain() {
    // root 0x1000 -> 0x2000 -> 0x3000 -> 0x4000, bottom entry 5 -> 0xabc000.
    let mut root = PageTable::empty();
    root.entries[0] = link(0x2000);
    let mut t3 = PageTable::empty();
    t3.entries[0] = link(0x3000);
    let mut t2 = PageTable::empty();
    t2.entries[0] = link(0x4000);
    let mut t1 = PageTable::empty();
    t1.entries[5] = link(0xabc000);
    let slots = vec![
        TableSlot { base: 0x1000, level: 4, table: root },
        TableSlot { base: 0x2000, level: 3, table: t3 },
        TableSlot { base: 0x3000, level: 2, table: t2 },
        TableSlot { base: 0x4000, level: 1, table: t1 },
    ];
    let mapper = init(0, 0x1000, slots);
    assert_eq!(mapper.translate(5 * 0x1000 + 0x321), Some(0xabc321));
    assert_eq!(mapper.translate(5 * 0x1000), Some(0xabc000));
    // A sibling page of the same bottom table is unmapped.
    assert_eq!(mapper.translate(6 * 0x1000), None);
}

#[test]
fn map_then_translate_round_trip() {
    let mut mapper = empty_root_mapper();
    let mut src = boot_source(0x100000, 0x3000);
    let page: u64 = 0x2000;
    let frame: u64 = 0x200000;
    let r = mapper.map(page, frame, PageFlags { writable: true }, &mut src);
    assert_eq!(r, Ok(()));
    assert_eq!(mapper.translate(page), Some(frame));
    assert_eq!(mapper.translate(page + 0x123), Some(frame + 0x123));
    assert_eq!(mapper.translate(page + 0xfff), Some(frame + 0xfff));
    // The three intermediate tables consumed the whole inventory.
    assert_eq!(src.allocate_frame(), None);
}

#[test]
fn map_conflict_keeps_first_mapping() {
    let mut mapper = empty_root_mapper();
    let mut src = boot_source(0x100000, 0x4000);
    let page: u64 = 0x2000;
    assert_eq!(mapper.map(page, 0x200000, PageFlags { writable: true }, &mut src), Ok(()));
    let second = mapper.map(page, 0x300000, PageFlags { writable: true }, &mut src);
    assert_eq!(second, Err(MapError::FrameAlreadyInUse));
    assert_eq!(mapper.translate(page), Some(0x200000));
}

#[test]
fn map_with_empty_source_fails() {
    let mut mapper = empty_root_mapper();
    let mut src = FrameSource::Empty;
    let r = mapper.map(0x2000, 0x200000, PageFlags { writable: true }, &mut src);
    assert_eq!(r, Err(MapError::FrameAllocationFailed));
    assert_eq!(mapper.translate(0x2000), None);
}

#[test]
fn map_with_short_inventory_fails_and_maps_nothing() {
    let mut mapper = empty_root_mapper();
    // Two frames where three intermediate tables are needed.
    let mut src = boot_source(0x100000, 0x2000);
    let r = mapper.map(0x2000, 0x200000, PageFlags { writable: true }, &mut src);
    assert_eq!(r, Err(MapError::FrameAllocationFailed));
    assert_eq!(mapper.translate(0x2000), None);
    assert_eq!(src.allocate_frame(), None);
}

#[test]
fn map_second_page_reuses_tables_and_preserves_first() {
    let mut mapper = empty_root_mapper();
    let mut src = boot_source(0x100000, 0x3000);
    let flags = PageFlags { writable: true };
    assert_eq!(mapper.map(0x2000, 0x200000, flags, &mut src), Ok(()));
    // Same intermediate path, different bottom index: no new table needed
    // even though the inventory is exhausted.
    assert_eq!(mapper.map(0x3000, 0x300000, flags, &mut src), Ok(()));
    assert_eq!(mapper.translate(0x2000), Some(0x200000));
    assert_eq!(mapper.translate(0x3000), Some(0x300000));
    // A neighbouring page never mapped stays unmapped.
    assert_eq!(mapper.translate(0x4000), None);
}

#[test]
fn window_address_adds_offset() {
    let mapper = init(
        0xffff_8000_0000_0000,
        0x1000,
        vec![TableSlot { base: 0x1000, level: 4, table: PageTable::empty() }],
    );
    assert_eq!(mapper.window_address(0xb8000), 0xffff_8000_000b_8000);
}

#[test]
fn map_the_zero_page() {
    let mut mapper = empty_root_mapper();
    let mut src = boot_source(0x100000, 0x3000);
    assert_eq!(mapper.map(0, 0x200000, PageFlags { writable: false }, &mut src), Ok(()));
    assert_eq!(mapper.translate(0), Some(0x200000));
    assert_eq!(mapper.translate(0xfff), Some(0x200fff));
    assert_eq!(mapper.translate(0x1000), None);
}
