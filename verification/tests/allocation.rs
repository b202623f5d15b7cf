use memory::bitmap::ARRAY_SIZE;
use memory::bitmap::BITS_PER_BLOCK;
use memory::bitmap_frame_allocator::regions_well_formed;
use memory::bitmap_frame_allocator::FrameAllocator;
use memory::bitmap_frame_allocator::usable_regions;
use memory::bitmap_frame_allocator::BitmapFrameAllocator;
use memory::frame::Frame;
use memory::frame::MemoryRegion;
use memory::frame::PAGE_SIZE;

fn zero_bitmap() -> Vec<u64> {
    vec![0u64; ARRAY_SIZE]
}

/// One usable region of exactly one block's worth of frames (0..=63); the
/// bound lands on frame 64, which is also the reserved guard frame.  The
/// kernel and loader ranges are folded onto the guard frame so that every
/// frame of the block starts out free.
fn one_block_allocator() -> BitmapFrameAllocator {
    let memory_map = vec![MemoryRegion { base_addr: 0, length: 0x40000, typ: 1 }];
    BitmapFrameAllocator::new(zero_bitmap(), 0x40000, 0x40000, 0x40000, 0x40000, &memory_map)
}

#[test]
fn allocation_is_monotonic_within_a_pass() {
    let mut allocator = one_block_allocator();
    let mut previous: Option<usize> = None;
    for expected in 0..64usize {
        let frame = allocator.allocate_frame().expect("a free frame should remain");
        assert_eq!(frame.number(), expected);
        if let Some(p) = previous {
            assert!(frame.number() > p);
        }
        previous = Some(frame.number());
    }
}

#[test]
fn deallocated_frame_round_trips_through_wraparound() {
    let mut allocator = one_block_allocator();
    for _ in 0..64 {
        allocator.allocate_frame().expect("a free frame should remain");
    }
    assert!(allocator.frame_is_used(1));
    allocator.deallocate_frame(Frame { number: 1 });
    assert!(!allocator.frame_is_used(1));
    // the cursor sits at the bound; the wraparound pass rediscovers frame 1
    let again = allocator.allocate_frame().expect("the freed frame should be found again");
    assert_eq!(again.number(), 1);
    assert!(allocator.frame_is_used(1));
    // nothing else is free
    assert_eq!(allocator.allocate_frame(), None);
}

#[test]
fn exhausted_allocator_returns_none_on_first_call() {
    // the kernel range covers every frame of the single block
    let memory_map = vec![MemoryRegion { base_addr: 0, length: 0x40000, typ: 1 }];
    let mut allocator = BitmapFrameAllocator::new(
        zero_bitmap(),
        0,
        0x3ffff,
        0x40000,
        0x40000,
        &memory_map,
    );
    assert_eq!(allocator.allocate_frame(), None);
    assert_eq!(allocator.allocate_frame(), None);
}

#[test]
fn full_block_is_skipped_whole() {
    // two blocks of frames; the kernel range fills block 0 completely
    let memory_map = vec![MemoryRegion { base_addr: 0, length: 0x80000, typ: 1 }];
    let mut allocator = BitmapFrameAllocator::new(
        zero_bitmap(),
        0,
        0x3ffff,
        0x80000,
        0x80000,
        &memory_map,
    );
    assert!(allocator.block_is_used(0));
    assert!(!allocator.block_is_used(1));
    let frame = allocator.allocate_frame().expect("block 1 has free frames");
    assert_eq!(frame.number(), 64);
}

#[test]
fn marking_a_frame_reserved_twice_equals_marking_it_once() {
    let mut once = one_block_allocator();
    let mut twice = one_block_allocator();
    once.set_used(10, true);
    twice.set_used(10, true);
    twice.set_used(10, true);
    for index in 0..1024usize {
        assert_eq!(once.frame_is_used(index), twice.frame_is_used(index));
    }
    assert!(once.frame_is_used(10));
}

#[test]
fn deallocate_guard_rejects_frames_at_or_past_the_bound() {
    let mut allocator = one_block_allocator();
    let first = allocator.allocate_frame().expect("a free frame should remain");
    assert_eq!(first.number(), 0);
    // the bound itself and anything beyond it are caller bugs
    assert!(!allocator.try_deallocate_frame(Frame { number: 64 }));
    assert!(!allocator.try_deallocate_frame(Frame { number: 1_000_000 }));
    assert!(allocator.frame_is_used(0));
    // a frame below the bound is accepted
    assert!(allocator.try_deallocate_frame(Frame { number: 0 }));
    assert!(!allocator.frame_is_used(0));
}

fn take_two_frames<A: FrameAllocator>(supplier: &mut A) -> (Option<usize>, Option<usize>) {
    let first = supplier.allocate_frame().map(|f| f.number());
    let second = supplier.allocate_frame().map(|f| f.number());
    (first, second)
}

#[test]
fn allocator_works_through_the_capability_trait() {
    let mut allocator = one_block_allocator();
    let (first, second) = take_two_frames(&mut allocator);
    assert_eq!(first, Some(0));
    assert_eq!(second, Some(1));
    allocator.deallocate_frame(Frame { number: 0 });
    assert!(!allocator.frame_is_used(0));
}

#[test]
fn block_arithmetic_helpers() {
    assert_eq!(BitmapFrameAllocator::first_frame_in_block(2).number(), 128);
    assert_eq!(BitmapFrameAllocator::last_frame_in_block(2).number(), 191);
    assert_eq!(BitmapFrameAllocator::get_block_number(130), 2);
    assert_eq!(BITS_PER_BLOCK, 64);
    assert_eq!(PAGE_SIZE, 4096);
    assert_eq!(Frame::containing_address(0x1fff).number(), 1);
    assert_eq!(Frame::containing_address(0x2000).number(), 2);
}

#[test]
fn memory_map_validation() {
    let good = vec![
        MemoryRegion { base_addr: 0, length: 0x1000, typ: 1 },
        MemoryRegion { base_addr: 0x2000, length: 0x1000, typ: 1 },
    ];
    assert!(regions_well_formed(&good));

    let empty: Vec<MemoryRegion> = vec![];
    assert!(!regions_well_formed(&empty));

    let overlapping = vec![
        MemoryRegion { base_addr: 0, length: 0x3000, typ: 1 },
        MemoryRegion { base_addr: 0x2000, length: 0x1000, typ: 1 },
    ];
    assert!(!regions_well_formed(&overlapping));

    let unsorted = vec![
        MemoryRegion { base_addr: 0x2000, length: 0x1000, typ: 1 },
        MemoryRegion { base_addr: 0, length: 0x1000, typ: 1 },
    ];
    assert!(!regions_well_formed(&unsorted));

    let too_high = vec![MemoryRegion { base_addr: 0xffff_0000, length: 0x2_0000, typ: 1 }];
    assert!(!regions_well_formed(&too_high));
}

#[test]
fn usable_regions_keeps_available_entries_in_order() {
    let memory_map = vec![
        MemoryRegion { base_addr: 0, length: 0x1000, typ: 1 },
        MemoryRegion { base_addr: 0x1000, length: 0x1000, typ: 0 },
        MemoryRegion { base_addr: 0x2000, length: 0x1000, typ: 1 },
    ];
    let usable = usable_regions(&memory_map);
    assert_eq!(usable.len(), 2);
    assert_eq!(usable[0].base_addr, 0);
    assert_eq!(usable[1].base_addr, 0x2000);
}
