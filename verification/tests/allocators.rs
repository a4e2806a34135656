use andy_mm::frame_allocator::AndyFrameAllocator;
use andy_mm::frame_allocator::MemoryDescriptor;
use andy_mm::heap_alloc::AllocErr;
use andy_mm::heap_alloc::AndyAllocator;

fn desc(phys_start: u64, page_count: u64, usable: bool) -> MemoryDescriptor {
    MemoryDescriptor { phys_start, page_count, usable }
}

#[test]
fn frame_allocator_never_returns_frame_zero() {
    // a usable descriptor that starts at physical address 0
    let mut allocator = AndyFrameAllocator::new(vec![desc(0x0, 4, true)]);
    for _ in 0..4 {
        if let Some(frame) = allocator.allocate_frame() {
            assert_ne!(frame, 0);
        }
    }
}

#[test]
fn frame_allocator_skips_frame_zero_only_descriptor() {
    // one usable page at address 0: frame 0 is reserved, so nothing is left
    let mut allocator = AndyFrameAllocator::new(vec![desc(0x0, 1, true)]);
    assert_eq!(allocator.allocate_frame(), None);
}

#[test]
fn frame_allocator_returns_strictly_increasing_frames() {
    let mut allocator = AndyFrameAllocator::new(vec![
        desc(0x2000, 4, true),
        desc(0x8000, 2, false),
        desc(0xa000, 3, true),
    ]);
    let mut last = 0u64;
    while let Some(frame) = allocator.allocate_frame() {
        assert!(frame > last);
        last = frame;
    }
}

#[test]
fn frame_allocator_exact_sequence() {
    // usable [0x2000, 0x4000) and [0x5000, 0x8000) with 0x1000-byte pages
    let mut allocator = AndyFrameAllocator::new(vec![desc(0x2000, 2, true), desc(0x5000, 3, true)]);
    let expected_addrs = [0x2000u64, 0x3000, 0x5000, 0x6000, 0x7000];
    for expected in expected_addrs {
        let frame = allocator.allocate_frame().expect("a frame should be free");
        assert_eq!(frame * 0x1000, expected);
    }
    assert_eq!(allocator.allocate_frame(), None);
    assert_eq!(allocator.allocate_frame(), None);
}

#[test]
fn frame_allocator_skips_unusable_descriptors() {
    let mut allocator = AndyFrameAllocator::new(vec![
        desc(0x2000, 2, false),
        desc(0x4000, 1, true),
        desc(0x5000, 4, false),
    ]);
    assert_eq!(allocator.allocate_frame(), Some(4));
    assert_eq!(allocator.allocate_frame(), None);
}

#[test]
fn frame_allocator_empty_map() {
    let mut allocator = AndyFrameAllocator::new(Vec::new());
    assert_eq!(allocator.allocate_frame(), None);
}

const HEAP_START: usize = 0x10_0000;

fn heap_allocator(pages: usize) -> AndyAllocator<4096> {
    AndyAllocator::<4096>::new(HEAP_START, HEAP_START + pages * 4096)
}

#[test]
fn bitmap_allocator_first_fit_disjoint_runs() {
    // 64 pages; the status array needs 64 * 3 bytes, so one metadata page
    let mut allocator = heap_allocator(64);
    let first = allocator.allocate(3).expect("3 pages fit");
    let second = allocator.allocate(2).expect("2 pages fit");
    // both runs are page-aligned inside the heap and disjoint
    assert_eq!(first, HEAP_START + 1 * 4096);
    assert_eq!(second, HEAP_START + 4 * 4096);
    assert!(second >= first + 3 * 4096 || first >= second + 2 * 4096);
}

#[test]
fn bitmap_allocator_exhaustion_is_an_error() {
    let mut allocator = heap_allocator(64);
    allocator.allocate(3).expect("3 pages fit");
    allocator.allocate(2).expect("2 pages fit");
    // 58 free pages remain (63 after metadata, minus 5): a larger
    // contiguous request fails with the typed exhaustion error
    let r = allocator.allocate(59);
    assert_eq!(r, Err(AllocErr::NoBigEnoughBlocks));
    // and the remaining contiguous run can still be taken afterwards
    assert_eq!(allocator.allocate(58), Ok(HEAP_START + 6 * 4096));
    assert_eq!(allocator.allocate(1), Err(AllocErr::NoBigEnoughBlocks));
}

#[test]
fn bitmap_allocator_request_larger_than_heap() {
    let mut allocator = heap_allocator(8);
    assert_eq!(allocator.allocate(100), Err(AllocErr::NoBigEnoughBlocks));
}

#[test]
fn bitmap_allocator_single_pages_advance() {
    let mut allocator = heap_allocator(16);
    let a = allocator.allocate(1).unwrap();
    let b = allocator.allocate(1).unwrap();
    let c = allocator.allocate(1).unwrap();
    assert_eq!(b, a + 4096);
    assert_eq!(c, b + 4096);
}

#[test]
fn bitmap_allocator_reports_free_pages() {
    let mut allocator = heap_allocator(64);
    assert_eq!(allocator.free_pages(), 63);
    allocator.allocate(5).unwrap();
    assert_eq!(allocator.free_pages(), 58);
    allocator.allocate(58).unwrap();
    assert_eq!(allocator.free_pages(), 0);
}

#[test]
fn bitmap_allocator_metadata_layout() {
    let allocator = heap_allocator(64);
    assert_eq!(allocator.total_pages(), 64);
    assert_eq!(allocator.page_data_end(), HEAP_START + 64 * 3);
    assert_eq!(allocator.pages_start(), 1);
    assert_eq!(allocator.get_page_addr(5), HEAP_START + 5 * 4096);
    assert_eq!(allocator.get_page_status_addr(5), HEAP_START + 5 * 3);
}
