use crate::bitmap::all_used;
use crate::bitmap::bm_bit;
use crate::bitmap::lemma_block_end_within_pass;
use crate::bitmap::lemma_clear_effect;
use crate::bitmap::lemma_full_block_all_used;
use crate::bitmap::lemma_mark_effect;
use crate::bitmap::lemma_pass_end_bounds;
use crate::bitmap::pass_end;
use crate::bitmap::spec_clear;
use crate::bitmap::spec_mark;
use crate::bitmap::ARRAY_SIZE;
use crate::bitmap::BITS_PER_BLOCK;
use crate::bitmap::NUM_OF_FRAMES;
use crate::bitmap::MAX_MEM_SIZE;
use crate::frame::frame_of;
use crate::frame::region_end;
use crate::frame::Frame;
use crate::frame::MemoryRegion;
use crate::frame::PAGE_SIZE;
use vstd::prelude::*;

verus! {

/// The memory-map type tag of a usable (available) range.  Ranges with any
/// other tag are left to gap inference: the allocator walks the usable
/// ranges only, exactly as the boot loader's memory-map iterator yields
/// them.
pub const MEMORY_AREA_AVAILABLE: u32 = 1;

/// The subsequence of usable regions, in map order.
pub open spec fn usable_of(regions: Seq<MemoryRegion>) -> Seq<MemoryRegion> {
    regions.filter(|r: MemoryRegion| r.typ == MEMORY_AREA_AVAILABLE)
}

/// The memory map is fit to build an allocator from: it is non-empty, every
/// region ends below the 4 GiB ceiling, and the regions are sorted by base
/// address without overlap.  Gap inference between adjacent regions is only
/// meaningful under this ordering.
pub open spec fn regions_wf(regions: Seq<MemoryRegion>) -> bool {
    &&& regions.len() >= 1
    &&& forall|i: int|
        0 <= i < regions.len() ==> region_end(#[trigger] regions[i]) < MAX_MEM_SIZE as int
    &&& forall|i: int|
        0 <= i < regions.len() - 1 ==> region_end(#[trigger] regions[i]) <= regions[i
            + 1].base_addr
}

/// Frame `f` lies in the unreported hole between region `i` and region
/// `i + 1`: at or past the frame holding region `i`'s end, at or before the
/// frame holding the last address below region `i + 1`.
pub open spec fn pair_gap(regions: Seq<MemoryRegion>, i: int, f: int) -> bool {
    frame_of(region_end(regions[i])) <= f <= frame_of(regions[i + 1].base_addr - 1)
}

/// Frame `f` lies in a hole between one of the first `k` adjacent pairs of
/// regions.
pub open spec fn gap_reserved_upto(regions: Seq<MemoryRegion>, k: int, f: int) -> bool {
    exists|i: int| 0 <= i < k && i < regions.len() - 1 && #[trigger] pair_gap(regions, i, f)
}

/// Frame `f` lies in a hole between some adjacent pair of regions.
pub open spec fn gap_reserved(regions: Seq<MemoryRegion>, f: int) -> bool {
    gap_reserved_upto(regions, regions.len() - 1, f)
}

/// Frame `f` is one that construction reserves: the top-of-memory guard
/// frame, a memory-map hole, a kernel-image frame, or a frame of the
/// boot-loader's information structure.
pub open spec fn init_reserved(
    regions: Seq<MemoryRegion>,
    kernel_start: int,
    kernel_end: int,
    multiboot_start: int,
    multiboot_end: int,
    f: int,
) -> bool {
    ||| f == frame_of(region_end(regions.last()))
    ||| gap_reserved(regions, f)
    ||| frame_of(kernel_start) <= f <= frame_of(kernel_end)
    ||| frame_of(multiboot_start) <= f <= frame_of(multiboot_end)
}

/// The capability the rest of the memory subsystem depends on: a supplier
/// and reclaimer of physical frames, usable wherever one is needed without
/// knowledge of the bitmap internals.  Calls through this trait carry only
/// the invariant; `BitmapFrameAllocator`'s own methods state the full
/// behaviour.
pub trait FrameAllocator: Sized {
    /// The state the allocator's operations may be called in.
    spec fn alloc_inv(&self) -> bool;

    /// Whether `frame` may be handed back to this allocator.
    spec fn may_deallocate(&self, frame: Frame) -> bool;

    /// Hands out a free frame with its bit now set, or reports exhaustion.
    fn allocate_frame(&mut self) -> (r: Option<Frame>)
        requires
            old(self).alloc_inv(),
        ensures
            final(self).alloc_inv(),
    ;

    /// Returns one frame to the allocator.
    fn deallocate_frame(&mut self, frame: Frame)
        requires
            old(self).alloc_inv(),
            old(self).may_deallocate(frame),
        ensures
            final(self).alloc_inv(),
    ;
}

/// Boot-time physical-frame allocator over a flat bitmap: bit `i` set means
/// frame `i` is reserved or allocated.  Allocation scans forward from a
/// cursor one word at a time, skipping all-ones words, and wraps around at
/// most once before reporting exhaustion.
pub struct BitmapFrameAllocator {
    bitmap: Vec<u64>,
    second_scan: bool,
    next_frame: Frame,
    last_frame: Frame,
}

impl BitmapFrameAllocator {
    /// The bitmap words.
    pub closed spec fn bitmap_view(&self) -> Seq<u64> {
        self.bitmap@
    }

    /// The next candidate frame the scan will examine.
    pub closed spec fn next(&self) -> int {
        self.next_frame.number as int
    }

    /// The scan's upper bound: the highest in-bounds frame index.
    pub closed spec fn last(&self) -> int {
        self.last_frame.number as int
    }

    /// Whether the current scan is the wraparound retry pass.
    pub closed spec fn second(&self) -> bool {
        self.second_scan
    }

    /// Whether frame `f` is reserved or allocated.
    pub open spec fn used(&self, f: int) -> bool {
        bm_bit(self.bitmap_view(), f)
    }

    /// Structural invariant: the bitmap covers every frame below the 4 GiB
    /// ceiling, the bound fits under it, and the cursor never runs past the
    /// boundary of the pass it is scanning.
    pub open spec fn wf(&self) -> bool {
        &&& self.bitmap_view().len() == ARRAY_SIZE
        &&& 0 <= self.last() < NUM_OF_FRAMES
        &&& 0 <= self.next() <= pass_end(self.last())
    }

    /// Sets (`value == true`) or clears (`value == false`) frame `index`'s
    /// bit, leaving every other frame and the cursor state unchanged.
    pub fn set_used(&mut self, index: usize, value: bool)
        requires
            old(self).bitmap_view().len() == ARRAY_SIZE,
            index < NUM_OF_FRAMES,
        ensures
            final(self).bitmap_view() == (if value {
                spec_mark(old(self).bitmap_view(), index as int)
            } else {
                spec_clear(old(self).bitmap_view(), index as int)
            }),
            final(self).bitmap_view().len() == ARRAY_SIZE,
            forall|f: int|
                0 <= f < NUM_OF_FRAMES ==> (final(self).used(f) <==> (if value {
                    old(self).used(f) || f == index
                } else {
                    old(self).used(f) && f != index
                })),
            final(self).next() == old(self).next(),
            final(self).last() == old(self).last(),
            final(self).second() == old(self).second(),
    {
        let word: usize = index / BITS_PER_BLOCK;
        let bit: usize = index % BITS_PER_BLOCK;
        if value {
            self.bitmap[word] = self.bitmap[word] | (1u64 << (bit as u64));
            proof {
                lemma_mark_effect(old(self).bitmap_view(), index as int);
            }
        } else {
            self.bitmap[word] = self.bitmap[word] & !(1u64 << (bit as u64));
            proof {
                lemma_clear_effect(old(self).bitmap_view(), index as int);
            }
        }
    }

    /// Whether frame `index` is reserved or allocated.
    pub fn frame_is_used(&self, index: usize) -> (r: bool)
        requires
            self.bitmap_view().len() == ARRAY_SIZE,
            index < NUM_OF_FRAMES,
        ensures
            r == self.used(index as int),
    {
        (self.bitmap[index / BITS_PER_BLOCK] & (1u64 << ((index % BITS_PER_BLOCK) as u64))) != 0
    }

    /// Whether block `index`'s word is all ones, in which case every frame of
    /// the block is used and the scan may skip the whole block at once.
    pub fn block_is_used(&self, index: usize) -> (r: bool)
        requires
            self.bitmap_view().len() == ARRAY_SIZE,
            index < ARRAY_SIZE,
        ensures
            r == (self.bitmap_view()[index as int] == u64::MAX),
            r ==> all_used(self.bitmap_view(), 64 * index, 64 * index + 64),
    {
        proof {
            if self.bitmap_view()[index as int] == u64::MAX {
                lemma_full_block_all_used(self.bitmap_view(), index as int);
            }
        }
        self.bitmap[index] == u64::MAX
    }

    /// The first frame of the given block.
    pub fn first_frame_in_block(block_number: usize) -> (f: Frame)
        requires
            block_number <= ARRAY_SIZE,
        ensures
            f.number == block_number * BITS_PER_BLOCK,
    {
        Frame { number: block_number * BITS_PER_BLOCK }
    }

    /// The last frame of the given block.
    pub fn last_frame_in_block(block_number: usize) -> (f: Frame)
        requires
            block_number < ARRAY_SIZE,
        ensures
            f.number == block_number * BITS_PER_BLOCK + BITS_PER_BLOCK - 1,
    {
        Frame { number: block_number * BITS_PER_BLOCK + BITS_PER_BLOCK - 1 }
    }

    /// The block whose word holds the given frame's bit.
    pub fn get_block_number(frame_number: usize) -> (b: usize)
        ensures
            b == frame_number / BITS_PER_BLOCK,
    {
        frame_number / BITS_PER_BLOCK
    }

    /// Scans the given block, which must be the one holding the cursor, for
    /// a free frame at or past the cursor.  If the block's word is all ones
    /// the whole block is skipped in one step.  Either the lowest free frame
    /// of the block at or past the cursor is marked and returned, with the
    /// cursor moved just past it, or the cursor is moved to the start of the
    /// next block and every frame it passed over was already used.
    fn find_free_frame_in_block(&mut self, block_number: usize) -> (r: Option<Frame>)
        requires
            old(self).wf(),
            old(self).next() < old(self).last(),
            block_number == old(self).next() / 64,
        ensures
            final(self).wf(),
            final(self).last() == old(self).last(),
            final(self).second() == old(self).second(),
            match r {
                Option::Some(f) => {
                    &&& old(self).next() <= f.number < (block_number + 1) * 64
                    &&& !old(self).used(f.number as int)
                    &&& all_used(old(self).bitmap_view(), old(self).next(), f.number as int)
                    &&& final(self).bitmap_view() == spec_mark(
                        old(self).bitmap_view(),
                        f.number as int,
                    )
                    &&& forall|g: int|
                        0 <= g < NUM_OF_FRAMES ==> (final(self).used(g) <==> (old(self).used(g)
                            || g == f.number))
                    &&& final(self).next() == f.number + 1
                },
                Option::None => {
                    &&& final(self).bitmap_view() == old(self).bitmap_view()
                    &&& final(self).next() == (block_number + 1) * 64
                    &&& all_used(
                        old(self).bitmap_view(),
                        old(self).next(),
                        (block_number + 1) * 64,
                    )
                },
            },
    {
        proof {
            lemma_block_end_within_pass(old(self).next(), old(self).last());
        }
        if self.block_is_used(block_number) {
            self.next_frame = BitmapFrameAllocator::first_frame_in_block(block_number + 1);
            None
        } else {
            let last_in_block = BitmapFrameAllocator::last_frame_in_block(block_number);
            while self.next_frame.number <= last_in_block.number
                invariant
                    self.wf(),
                    self.bitmap_view() == old(self).bitmap_view(),
                    self.last() == old(self).last(),
                    self.second() == old(self).second(),
                    block_number == old(self).next() / 64,
                    last_in_block.number == block_number * 64 + 63,
                    (block_number + 1) * 64 <= pass_end(self.last()),
                    old(self).next() <= self.next() <= (block_number + 1) * 64,
                    all_used(old(self).bitmap_view(), old(self).next(), self.next()),
                decreases (block_number + 1) * 64 - self.next(),
            {
                if self.frame_is_used(self.next_frame.number) {
                    self.next_frame = Frame { number: self.next_frame.number + 1 };
                } else {
                    let frame = self.next_frame;
                    let ghost bm_pre = self.bitmap_view();
                    self.set_used(frame.number, true);
                    self.next_frame = Frame { number: frame.number + 1 };
                    proof {
                        lemma_mark_effect(bm_pre, frame.number as int);
                        assert forall|g: int|
                            0 <= g < NUM_OF_FRAMES implies (self.used(g) <==> (bm_bit(bm_pre, g)
                            || g == frame.number)) by {
                            assert(self.bitmap_view() == spec_mark(bm_pre, frame.number as int));
                            assert(g / 64 < bm_pre.len());
                        }
                    }
                    return Some(frame);
                }
            }
            None
        }
    }

    /// Finds, marks and returns a free frame, or reports exhaustion.
    ///
    /// The scan runs from the cursor towards the upper bound a whole block
    /// at a time.  A pass that reaches the bound having found nothing is
    /// followed by at most one wraparound pass from frame 0; only when that
    /// retry also finds nothing — every frame below the bound already used —
    /// is `None` returned, with the retry flag reset so a later call starts
    /// fresh.  On success the returned frame is the lowest free frame the
    /// running pass could still reach, its bit is set, and the cursor sits
    /// just past it.
    pub fn allocate_frame(&mut self) -> (r: Option<Frame>)
        requires
            old(self).wf(),
        ensures
            final(self).wf(),
            final(self).last() == old(self).last(),
            // A frame is free at or past the cursor: the lowest one is handed out.
            (old(self).next() < old(self).last() && !all_used(
                old(self).bitmap_view(),
                old(self).next(),
                pass_end(old(self).last()),
            )) ==> match r {
                Option::Some(f) => {
                    &&& old(self).next() <= f.number < pass_end(old(self).last())
                    &&& !old(self).used(f.number as int)
                    &&& all_used(old(self).bitmap_view(), old(self).next(), f.number as int)
                    &&& forall|g: int|
                        0 <= g < NUM_OF_FRAMES ==> (final(self).used(g) <==> (old(self).used(g)
                            || g == f.number))
                    &&& final(self).next() == f.number + 1
                    &&& final(self).second() == old(self).second()
                },
                Option::None => false,
            },
            // The first pass has nothing left, but a wraparound retry is
            // still allowed and finds a frame: the lowest free frame is
            // handed out.
            ((old(self).next() >= old(self).last() || all_used(
                old(self).bitmap_view(),
                old(self).next(),
                pass_end(old(self).last()),
            )) && !old(self).second() && !all_used(
                old(self).bitmap_view(),
                0,
                pass_end(old(self).last()),
            )) ==> match r {
                Option::Some(f) => {
                    &&& 0 <= f.number < pass_end(old(self).last())
                    &&& !old(self).used(f.number as int)
                    &&& all_used(old(self).bitmap_view(), 0, f.number as int)
                    &&& forall|g: int|
                        0 <= g < NUM_OF_FRAMES ==> (final(self).used(g) <==> (old(self).used(g)
                            || g == f.number))
                    &&& final(self).next() == f.number + 1
                    &&& final(self).second() == true
                },
                Option::None => false,
            },
            // Exhaustion: no pass may run, or every reachable frame is used.
            ((old(self).next() >= old(self).last() || all_used(
                old(self).bitmap_view(),
                old(self).next(),
                pass_end(old(self).last()),
            )) && (old(self).second() || all_used(
                old(self).bitmap_view(),
                0,
                pass_end(old(self).last()),
            ))) ==> match r {
                Option::Some(f) => false,
                Option::None => {
                    &&& final(self).bitmap_view() == old(self).bitmap_view()
                    &&& final(self).second() == false
                    &&& final(self).next() == (if old(self).second() && old(self).next() >= old(
                        self,
                    ).last() {
                        old(self).next()
                    } else {
                        pass_end(old(self).last())
                    })
                },
            },
    {
        let ghost bm0 = old(self).bitmap_view();
        let ghost n0 = old(self).next();
        let ghost ll = old(self).last();
        let ghost s0 = old(self).second();
        let ghost ee = pass_end(ll);
        proof {
            lemma_pass_end_bounds(ll);
        }
        loop
            invariant
                self.wf(),
                bm0 == old(self).bitmap_view(),
                n0 == old(self).next(),
                ll == old(self).last(),
                s0 == old(self).second(),
                self.bitmap_view() == bm0,
                self.last() == ll,
                ee == pass_end(ll),
                0 <= n0 <= ee,
                ({
                    // still inside the pass the call started in
                    &&& self.second() == s0
                    &&& n0 <= self.next()
                    &&& all_used(bm0, n0, self.next())
                    &&& (self.next() == n0 || (n0 < ll && self.next() % 64 == 0 && self.next()
                        <= ee))
                } || {
                    // wrapped around for the retry pass
                    &&& !s0
                    &&& self.second()
                    &&& (n0 >= ll || all_used(bm0, n0, ee))
                    &&& all_used(bm0, 0, self.next())
                    &&& (self.next() == 0 || self.next() % 64 == 0)
                    &&& self.next() <= ee
                }),
            decreases (if self.second() {
                0int
            } else {
                1int
            }), pass_end(self.last()) + 64 - self.next(),
        {
            let ghost pre = *self;
            if self.next_frame.number < self.last_frame.number {
                let block_number = BitmapFrameAllocator::get_block_number(self.next_frame.number());
                proof {
                    lemma_block_end_within_pass(pre.next(), ll);
                }
                let frame = self.find_free_frame_in_block(block_number);
                if frame.is_some() {
                    proof {
                        let f = frame->Some_0.number as int;
                        assert(!all_used(bm0, pre.next(), ee));
                        if !s0 && pre.second() {
                            // retry pass: everything below f was used
                            assert(!all_used(bm0, 0, ee));
                        } else {
                            assert(!all_used(bm0, n0, ee));
                        }
                    }
                    return frame;
                }
            } else if !self.second_scan {
                self.second_scan = true;
                self.next_frame = Frame { number: 0 };
                proof {
                    if pre.next() != n0 {
                        // the pass advanced block by block, so it stopped
                        // exactly at the pass boundary
                        assert(pre.next() == ee);
                    }
                }
            } else {
                self.second_scan = false;
                proof {
                    if pre.next() != n0 || (!s0 && pre.second()) {
                        assert(pre.next() == ee);
                    }
                }
                return None;
            }
        }
    }

    /// Frees one frame.  The cursor is not moved back: a frame freed behind
    /// it is only found again by a wraparound pass.
    pub fn deallocate_frame(&mut self, frame: Frame)
        requires
            old(self).wf(),
            frame.number < old(self).last(),
        ensures
            final(self).wf(),
            final(self).bitmap_view() == spec_clear(old(self).bitmap_view(), frame.number as int),
            forall|f: int|
                0 <= f < NUM_OF_FRAMES ==> (final(self).used(f) <==> (old(self).used(f) && f
                    != frame.number)),
            final(self).next() == old(self).next(),
            final(self).last() == old(self).last(),
            final(self).second() == old(self).second(),
    {
        self.set_used(frame.number(), false);
    }

    /// Deallocation with the bound check made at run time instead of being
    /// owed by the caller: a frame at or past the bound is a caller bug, so
    /// it is rejected and the allocator is left untouched.
    pub fn try_deallocate_frame(&mut self, frame: Frame) -> (ok: bool)
        requires
            old(self).wf(),
        ensures
            final(self).wf(),
            ok == (frame.number < old(self).last()),
            ok ==> final(self).bitmap_view() == spec_clear(
                old(self).bitmap_view(),
                frame.number as int,
            ),
            ok ==> forall|f: int|
                0 <= f < NUM_OF_FRAMES ==> (final(self).used(f) <==> (old(self).used(f) && f
                    != frame.number)),
            !ok ==> *final(self) == *old(self),
            final(self).next() == old(self).next(),
            final(self).last() == old(self).last(),
            final(self).second() == old(self).second(),
    {
        if frame.number < self.last_frame.number {
            self.deallocate_frame(frame);
            true
        } else {
            false
        }
    }

    /// Marks every frame of the inclusive range `[start, end]` (empty when
    /// `start > end`), leaving every other frame and the cursor unchanged.
    fn mark_frame_range(&mut self, start: usize, end: usize)
        requires
            old(self).bitmap_view().len() == ARRAY_SIZE,
            end < NUM_OF_FRAMES,
        ensures
            final(self).bitmap_view().len() == ARRAY_SIZE,
            forall|f: int|
                0 <= f < NUM_OF_FRAMES ==> (final(self).used(f) <==> (old(self).used(f) || (start
                    <= f <= end))),
            final(self).next() == old(self).next(),
            final(self).last() == old(self).last(),
            final(self).second() == old(self).second(),
    {
        let mut frame_number: usize = start;
        while frame_number <= end
            invariant
                self.bitmap_view().len() == ARRAY_SIZE,
                end < NUM_OF_FRAMES,
                start <= frame_number,
                frame_number == start || frame_number <= end + 1,
                forall|f: int|
                    0 <= f < NUM_OF_FRAMES ==> (self.used(f) <==> (old(self).used(f) || (start <= f
                        < frame_number))),
                self.next() == old(self).next(),
                self.last() == old(self).last(),
                self.second() == old(self).second(),
            decreases end + 1 - frame_number,
        {
            self.set_used(frame_number, true);
            frame_number = frame_number + 1;
        }
    }

    /// Digests the firmware memory map: fixes the scan's upper bound at the
    /// frame holding the final region's end and reserves that guard frame
    /// (it may be a partial frame), then reserves every frame falling in a
    /// hole between adjacent regions.  Usable regions are not touched: the
    /// caller hands in whatever bitmap contents it starts from, and only
    /// holes and the guard are added.
    #[verifier::rlimit(100)]
    fn map_memory_areas(&mut self, memory_regions: &Vec<MemoryRegion>)
        requires
            old(self).bitmap_view().len() == ARRAY_SIZE,
            regions_wf(memory_regions@),
        ensures
            final(self).bitmap_view().len() == ARRAY_SIZE,
            final(self).last() == frame_of(region_end(memory_regions@.last())),
            0 <= final(self).last() < NUM_OF_FRAMES,
            forall|f: int|
                0 <= f < NUM_OF_FRAMES ==> (final(self).used(f) <==> (old(self).used(f) || f
                    == frame_of(region_end(memory_regions@.last())) || gap_reserved(
                    memory_regions@,
                    f,
                ))),
            final(self).next() == old(self).next(),
            final(self).second() == old(self).second(),
    {
        let ghost regions = memory_regions@;
        let n = memory_regions.len();
        let last_region = memory_regions[n - 1];
        let end_addr: u64 = last_region.base_addr + last_region.length;
        let last_frame_number: usize = (end_addr / (PAGE_SIZE as u64)) as usize;
        proof {
            assert(region_end(regions[n - 1]) < MAX_MEM_SIZE as int);
            assert(last_frame_number < NUM_OF_FRAMES);
        }
        self.last_frame = Frame { number: last_frame_number };
        self.set_used(last_frame_number, true);

        let mut i: usize = 0;
        while i + 1 < n
            invariant
                self.bitmap_view().len() == ARRAY_SIZE,
                regions == memory_regions@,
                regions_wf(regions),
                n == regions.len(),
                0 <= i,
                i + 1 <= n,
                last_frame_number == frame_of(region_end(regions.last())),
                last_frame_number < NUM_OF_FRAMES,
                forall|f: int|
                    0 <= f < NUM_OF_FRAMES ==> (self.used(f) <==> (old(self).used(f) || f
                        == last_frame_number as int || gap_reserved_upto(regions, i as int, f))),
                self.next() == old(self).next(),
                self.last() == last_frame_number as int,
                self.second() == old(self).second(),
            decreases n - i,
        {
            let ghost pre_bm = self.bitmap_view();
            let r1 = memory_regions[i];
            let r2 = memory_regions[i + 1];
            let start_addr: u64 = r1.base_addr + r1.length;
            let start_occupied: usize = (start_addr / (PAGE_SIZE as u64)) as usize;
            if r2.base_addr >= 1 {
                let end_occupied: usize = ((r2.base_addr - 1) / (PAGE_SIZE as u64)) as usize;
                proof {
                    assert(region_end(regions[i as int]) < MAX_MEM_SIZE as int);
                    assert(region_end(regions[i as int + 1]) < MAX_MEM_SIZE as int);
                    assert(end_occupied < NUM_OF_FRAMES);
                    assert(start_occupied as int == frame_of(region_end(regions[i as int])));
                    assert(end_occupied as int == frame_of(regions[i as int + 1].base_addr - 1));
                }
                self.mark_frame_range(start_occupied, end_occupied);
                proof {
                    assert forall|f: int|
                        0 <= f < NUM_OF_FRAMES implies (self.used(f) <==> (bm_bit(pre_bm, f)
                        || pair_gap(regions, i as int, f))) by {
                        assert(pair_gap(regions, i as int, f) == (start_occupied <= f
                            <= end_occupied));
                    }
                }
            } else {
                // the next region starts at address 0, so there is no hole
                // before it: the pair's gap range is empty
                proof {
                    assert(frame_of(regions[i as int + 1].base_addr - 1) == -1) by {
                        assert(regions[i as int + 1].base_addr == 0);
                        assert((-1) / (PAGE_SIZE as int) == -1);
                    }
                    assert(frame_of(region_end(regions[i as int])) >= 0);
                    assert forall|f: int|
                        0 <= f < NUM_OF_FRAMES implies (self.used(f) <==> (bm_bit(pre_bm, f)
                        || pair_gap(regions, i as int, f))) by {
                        assert(!pair_gap(regions, i as int, f));
                    }
                }
            }
            proof {
                assert forall|f: int|
                    0 <= f < NUM_OF_FRAMES implies (self.used(f) <==> (old(self).used(f) || f
                    == last_frame_number as int || gap_reserved_upto(regions, i as int + 1, f)))
                    by {
                    if gap_reserved_upto(regions, i as int + 1, f) && !gap_reserved_upto(
                        regions,
                        i as int,
                        f,
                    ) {
                        let w = choose|w: int|
                            0 <= w < i as int + 1 && w < regions.len() - 1 && #[trigger] pair_gap(
                                regions,
                                w,
                                f,
                            );
                        assert(w == i as int);
                        assert(pair_gap(regions, i as int, f));
                    }
                    if pair_gap(regions, i as int, f) {
                        assert(gap_reserved_upto(regions, i as int + 1, f));
                    }
                }
            }
            i = i + 1;
        }
    }

    /// Reserves every frame of the kernel image's inclusive address range.
    pub fn map_kernel(&mut self, kernel_start: usize, kernel_end: usize)
        requires
            old(self).bitmap_view().len() == ARRAY_SIZE,
            (kernel_end as int) < MAX_MEM_SIZE as int,
        ensures
            final(self).bitmap_view().len() == ARRAY_SIZE,
            forall|f: int|
                0 <= f < NUM_OF_FRAMES ==> (final(self).used(f) <==> (old(self).used(f) || (
                frame_of(kernel_start as int) <= f <= frame_of(kernel_end as int)))),
            final(self).next() == old(self).next(),
            final(self).last() == old(self).last(),
            final(self).second() == old(self).second(),
    {
        let start = Frame::containing_address(kernel_start);
        let end = Frame::containing_address(kernel_end);
        self.mark_frame_range(start.number(), end.number());
    }

    /// Reserves every frame of the boot-loader information structure's
    /// inclusive address range.
    pub fn map_multiboot(&mut self, multiboot_start: usize, multiboot_end: usize)
        requires
            old(self).bitmap_view().len() == ARRAY_SIZE,
            (multiboot_end as int) < MAX_MEM_SIZE as int,
        ensures
            final(self).bitmap_view().len() == ARRAY_SIZE,
            forall|f: int|
                0 <= f < NUM_OF_FRAMES ==> (final(self).used(f) <==> (old(self).used(f) || (
                frame_of(multiboot_start as int) <= f <= frame_of(multiboot_end as int)))),
            final(self).next() == old(self).next(),
            final(self).last() == old(self).last(),
            final(self).second() == old(self).second(),
    {
        let start = Frame::containing_address(multiboot_start);
        let end = Frame::containing_address(multiboot_end);
        self.mark_frame_range(start.number(), end.number());
    }

    /// Builds the allocator from a caller-owned bitmap, the kernel image's
    /// address range, the boot-loader structure's address range, and the
    /// firmware memory map.  Only the map's usable regions take part; the
    /// map between them is inferred as holes.  Construction only sets bits:
    /// the frames marked are exactly those the caller had already marked
    /// plus the initially reserved ones — the top-of-memory guard frame, the
    /// holes between adjacent usable regions, and the two address ranges.
    pub fn new(
        bitmap: Vec<u64>,
        kernel_start: usize,
        kernel_end: usize,
        multiboot_start: usize,
        multiboot_end: usize,
        memory_regions: &Vec<MemoryRegion>,
    ) -> (r: BitmapFrameAllocator)
        requires
            bitmap@.len() == ARRAY_SIZE,
            regions_wf(usable_of(memory_regions@)),
            (kernel_end as int) < MAX_MEM_SIZE as int,
            (multiboot_end as int) < MAX_MEM_SIZE as int,
        ensures
            r.wf(),
            r.next() == 0,
            r.second() == false,
            r.last() == frame_of(region_end(usable_of(memory_regions@).last())),
            forall|f: int|
                0 <= f < NUM_OF_FRAMES ==> (r.used(f) <==> (bm_bit(bitmap@, f) || init_reserved(
                    usable_of(memory_regions@),
                    kernel_start as int,
                    kernel_end as int,
                    multiboot_start as int,
                    multiboot_end as int,
                    f,
                ))),
    {
        let mut allocator = BitmapFrameAllocator {
            bitmap,
            second_scan: false,
            next_frame: Frame::containing_address(0),
            last_frame: Frame::containing_address(0),
        };

        let usable = usable_regions(memory_regions);
        allocator.map_memory_areas(&usable);
        allocator.map_kernel(kernel_start, kernel_end);
        allocator.map_multiboot(multiboot_start, multiboot_end);
        allocator
    }
}

/// The usable regions of a memory map, in map order.
pub fn usable_regions(memory_regions: &Vec<MemoryRegion>) -> (r: Vec<MemoryRegion>)
    ensures
        r@ == usable_of(memory_regions@),
{
    let mut out: Vec<MemoryRegion> = Vec::new();
    let ghost regions = memory_regions@;
    proof {
        reveal_with_fuel(Seq::<_>::filter, 2);
        assert(regions.subrange(0, 0) =~= Seq::<MemoryRegion>::empty());
        assert(out@ =~= usable_of(regions.subrange(0, 0)));
    }
    let mut i: usize = 0;
    while i < memory_regions.len()
        invariant
            regions == memory_regions@,
            0 <= i <= regions.len(),
            out@ == usable_of(regions.subrange(0, i as int)),
        decreases regions.len() - i,
    {
        let reg = memory_regions[i];
        let ghost pre = out@;
        if reg.typ == MEMORY_AREA_AVAILABLE {
            out.push(reg);
        }
        proof {
            reveal_with_fuel(Seq::<_>::filter, 2);
            let sub1 = regions.subrange(0, i as int + 1);
            assert(sub1.drop_last() =~= regions.subrange(0, i as int));
            assert(sub1.last() == regions[i as int]);
            assert(out@ =~= usable_of(sub1));
        }
        i = i + 1;
    }
    proof {
        assert(regions.subrange(0, regions.len() as int) =~= regions);
    }
    out
}

impl FrameAllocator for BitmapFrameAllocator {
    /// The structural invariant of the bitmap allocator.
    open spec fn alloc_inv(&self) -> bool {
        self.wf()
    }

    /// A frame may be handed back exactly when it lies below the scan bound.
    open spec fn may_deallocate(&self, frame: Frame) -> bool {
        (frame.number as int) < self.last()
    }

    fn allocate_frame(&mut self) -> (r: Option<Frame>) {
        self.allocate_frame()
    }

    fn deallocate_frame(&mut self, frame: Frame) {
        self.deallocate_frame(frame)
    }
}

/// Defensive check of the memory map, for callers that receive it from
/// firmware rather than prove it: accepts exactly the maps that `new` may
/// be given.
pub fn regions_well_formed(memory_regions: &Vec<MemoryRegion>) -> (r: bool)
    ensures
        r == regions_wf(memory_regions@),
{
    let n = memory_regions.len();
    if n == 0 {
        return false;
    }
    let mut i: usize = 0;
    while i < n
        invariant
            n == memory_regions@.len(),
            n >= 1,
            0 <= i <= n,
            forall|j: int|
                0 <= j < i ==> region_end(#[trigger] memory_regions@[j]) < MAX_MEM_SIZE as int,
            forall|j: int|
                0 <= j < i && j < n - 1 ==> region_end(#[trigger] memory_regions@[j])
                    <= memory_regions@[j + 1].base_addr,
        decreases n - i,
    {
        let reg = memory_regions[i];
        if reg.base_addr >= MAX_MEM_SIZE || reg.length >= MAX_MEM_SIZE {
            return false;
        }
        let end_addr: u64 = reg.base_addr + reg.length;
        if end_addr >= MAX_MEM_SIZE {
            return false;
        }
        if i + 1 < n {
            if end_addr > memory_regions[i + 1].base_addr {
                return false;
            }
        }
        i = i + 1;
    }
    true
}

} // verus!
