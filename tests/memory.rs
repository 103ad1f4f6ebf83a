use tiny_os::allocator::{HeapMapping, MapError, MapStep, HEAP_SIZE, HEAP_START};
use tiny_os::memory::{
    BootInfoFrameAllocator, EmptyFrameAllocator, MemoryRegion, MemoryRegionType, PhysFrame,
};

fn region(start: u64, end: u64, usable: bool) -> MemoryRegion {
    let region_type = if usable { MemoryRegionType::Usable } else { MemoryRegionType::Reserved };
    MemoryRegion { start, end, region_type }
}

#[test]
fn frames_in_map_order() {
    let map = vec![
        region(0, 0x1000, false),
        region(0x1000, 0x3000, true),
        region(0x3000, 0x5000, false),
        region(0x8000, 0x9000, true),
    ];
    let mut frames = BootInfoFrameAllocator::init(&map);
    let got: Vec<Option<PhysFrame>> = (0..4).map(|_| frames.allocate_frame()).collect();
    assert_eq!(
        got,
        vec![
            Some(PhysFrame { start_address: 0x1000 }),
            Some(PhysFrame { start_address: 0x2000 }),
            Some(PhysFrame { start_address: 0x8000 }),
            None,
        ]
    );
    assert_eq!(frames.allocate_frame(), None);
}

#[test]
fn empty_map_has_no_frames() {
    let mut frames = BootInfoFrameAllocator::init(&[]);
    assert_eq!(frames.allocate_frame(), None);
    assert_eq!(EmptyFrameAllocator.allocate_frame(), None);
}

#[test]
fn heap_pages_each_get_a_frame() {
    let map = [region(0x10_0000, 0x20_0000, true)];
    let mut frames = BootInfoFrameAllocator::init(&map);
    let mut plan = HeapMapping::new(HEAP_START, HEAP_SIZE);
    let mut mapped = Vec::new();
    loop {
        match plan.next_step(&mut frames) {
            MapStep::MapPage { page, frame } => mapped.push((page, frame.start_address)),
            MapStep::Done => break,
            MapStep::Failed(e) => panic!("{:?}", e),
        }
    }
    assert_eq!(mapped.len() as u64, HEAP_SIZE / 4096);
    for (k, &(page, frame)) in mapped.iter().enumerate() {
        assert_eq!(page, HEAP_START + 4096 * k as u64);
        assert_eq!(frame, 0x10_0000 + 4096 * k as u64);
    }
    assert!(matches!(plan.next_step(&mut frames), MapStep::Done));
}

#[test]
fn heap_pages_cover_unaligned_range() {
    let map = [region(0, 0x10_0000, true)];
    let mut frames = BootInfoFrameAllocator::init(&map);
    let mut plan = HeapMapping::new(0x1ff0, 0x20);
    let mut pages = Vec::new();
    while let MapStep::MapPage { page, .. } = plan.next_step(&mut frames) {
        pages.push(page);
    }
    assert_eq!(pages, vec![0x1000, 0x2000]);
}

#[test]
fn heap_mapping_stops_when_frames_run_out() {
    let map = [region(0x1000, 0x3000, true)];
    let mut frames = BootInfoFrameAllocator::init(&map);
    let mut plan = HeapMapping::new(HEAP_START, HEAP_SIZE);
    assert!(matches!(plan.next_step(&mut frames), MapStep::MapPage { .. }));
    assert!(matches!(plan.next_step(&mut frames), MapStep::MapPage { .. }));
    assert!(matches!(
        plan.next_step(&mut frames),
        MapStep::Failed(MapError::FrameAllocationFailed)
    ));
    assert!(matches!(plan.next_step(&mut frames), MapStep::Done));
}
