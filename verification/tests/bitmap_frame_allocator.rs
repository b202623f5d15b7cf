use memory::bitmap::ARRAY_SIZE;
use memory::bitmap_frame_allocator::BitmapFrameAllocator;
use memory::frame::Frame;
use memory::frame::MemoryRegion;

fn make_memory_map() -> Vec<MemoryRegion> {
    vec![
        MemoryRegion { base_addr: 0x0, length: 0x9fc00, typ: 1 },
        MemoryRegion { base_addr: 0x9fc00, length: 0x60400, typ: 0 },
        MemoryRegion { base_addr: 0x100000, length: 0x7EE0000, typ: 1 },
    ]
}

fn zero_bitmap() -> Vec<u64> {
    vec![0u64; ARRAY_SIZE]
}

#[test]
fn initialisation() {
    let memory_map = make_memory_map();

    let bitmap = zero_bitmap();

    let kernel_start: usize = 0x100000;
    let kernel_end: usize = 0x13a1b0;

    let multiboot_start: usize = 0x13e398;
    let multiboot_end: usize = 0x13eaa0;

    let _allocator = BitmapFrameAllocator::new(
        bitmap,
        kernel_start,
        kernel_end,
        multiboot_start,
        multiboot_end,
        &memory_map,
    );
}

#[test]
fn areas_are_mapped_correctly() {
    let memory_map = make_memory_map();

    let bitmap = zero_bitmap();

    let kernel_start: usize = 0x100000;
    let kernel_end: usize = 0x13a1b0;

    let multiboot_start: usize = 0x13e398;
    let multiboot_end: usize = 0x13eaa0;

    let allocator = BitmapFrameAllocator::new(
        bitmap,
        kernel_start,
        kernel_end,
        multiboot_start,
        multiboot_end,
        &memory_map,
    );
    assert_eq!(allocator.frame_is_used(Frame::containing_address(0).number()), false);
    assert_eq!(allocator.frame_is_used(Frame::containing_address(0x9f000 - 1).number()), false);
    assert_eq!(allocator.frame_is_used(Frame::containing_address(0x9f000).number()), true);
    assert_eq!(allocator.frame_is_used(Frame::containing_address(0x9fc00).number()), true);
    assert_eq!(allocator.frame_is_used(Frame::containing_address(0x9fc01).number()), true);
    assert_eq!(allocator.frame_is_used(Frame::containing_address(0x100000 - 1).number()), true);
    assert_eq!(allocator.frame_is_used(Frame::containing_address(0x100000).number()), true);
    assert_eq!(allocator.frame_is_used(Frame::containing_address(0x13a1b0).number()), true);
    assert_eq!(allocator.frame_is_used(Frame::containing_address(0x13b000).number()), false);
    assert_eq!(allocator.frame_is_used(Frame::containing_address(0x13e398).number()), true);
    assert_eq!(allocator.frame_is_used(Frame::containing_address(0x13eaa0).number()), true);
    assert_eq!(allocator.frame_is_used(Frame::containing_address(0x7fe0000).number()), true);
}
