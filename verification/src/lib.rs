pub mod bitmap;
pub mod bitmap_frame_allocator;
pub mod frame;
pub mod laws;
