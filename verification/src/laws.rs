use crate::bitmap::all_used;
use crate::bitmap::bm_bit;
use crate::bitmap::lemma_clear_effect;
use crate::bitmap::lemma_mark_effect;
use crate::bitmap::lemma_pass_end_bounds;
use crate::bitmap::pass_end;
use crate::bitmap::spec_clear;
use crate::bitmap::spec_mark;
use crate::bitmap::ARRAY_SIZE;
use crate::bitmap::NUM_OF_FRAMES;
use vstd::prelude::*;

verus! {

/// Idempotence of reservation: marking a frame reserved twice in a row
/// leaves the bitmap — word for word — identical to marking it once.
pub proof fn lemma_mark_idempotent(bm: Seq<u64>, i: int)
    requires
        0 <= i,
        i / 64 < bm.len(),
    ensures
        spec_mark(spec_mark(bm, i), i) == spec_mark(bm, i),
{
    let w = bm[i / 64];
    let b = (i % 64) as u64;
    assert((w | (1u64 << b)) | (1u64 << b) == w | (1u64 << b)) by (bit_vector);
    assert(spec_mark(spec_mark(bm, i), i) =~= spec_mark(bm, i));
}

/// Round trip of a frame through deallocation: clearing frame `f` leaves it
/// observably free, so a wraparound pass over the cleared bitmap can no
/// longer report exhaustion; and if every frame below `f` stays used, `f` is
/// the lowest free frame of that pass, which is exactly the frame
/// `allocate_frame`'s contract then obliges a wraparound pass to return.
pub proof fn lemma_deallocate_round_trip(bm: Seq<u64>, f: int, last: int)
    requires
        bm.len() == ARRAY_SIZE,
        0 <= f < last,
        last < NUM_OF_FRAMES,
    ensures
        !bm_bit(spec_clear(bm, f), f),
        f < pass_end(last),
        !all_used(spec_clear(bm, f), 0, pass_end(last)),
        all_used(bm, 0, f) ==> all_used(spec_clear(bm, f), 0, f),
{
    lemma_clear_effect(bm, f);
    lemma_pass_end_bounds(last);
    assert(f / 64 < bm.len());
    let w = bm[f / 64];
    let b = (f % 64) as u64;
    assert(((w & !(1u64 << b)) & (1u64 << b)) == 0u64) by (bit_vector);
    assert(spec_clear(bm, f)[f / 64] == (w & !(1u64 << b)));
    assert(!bm_bit(spec_clear(bm, f), f));
    if all_used(bm, 0, f) {
        assert forall|g: int| 0 <= g < f implies bm_bit(spec_clear(bm, f), g) by {
            assert(bm_bit(bm, g));
            assert(g / 64 < bm.len());
        }
    }
}

/// Monotonic forward progress within a pass: when one allocation returns
/// `f1` and the next, scanning onward from the cursor `f1 + 1` over the
/// marked bitmap, returns `f2`, then `f2` lies strictly past `f1` and every
/// frame between the two was already reserved before the first call — no
/// free frame is skipped.
pub proof fn lemma_allocate_monotonic(bm0: Seq<u64>, f1: int, f2: int)
    requires
        bm0.len() == ARRAY_SIZE,
        0 <= f1 < NUM_OF_FRAMES,
        0 <= f2 < NUM_OF_FRAMES,
        f1 + 1 <= f2,
        all_used(spec_mark(bm0, f1), f1 + 1, f2),
    ensures
        f2 > f1,
        forall|g: int| f1 < g < f2 ==> bm_bit(bm0, g),
{
    lemma_mark_effect(bm0, f1);
    assert forall|g: int| f1 < g < f2 implies bm_bit(bm0, g) by {
        assert(bm_bit(spec_mark(bm0, f1), g));
    }
}

/// Exhaustion is reported at once: when every frame of the wraparound pass
/// range is already reserved, the hypotheses of `allocate_frame`'s
/// exhaustion clause hold whatever the cursor position, so its contract
/// admits only the `None` outcome on the very first call — no endless scan.
pub proof fn lemma_exhausted_allocator_returns_none(bm: Seq<u64>, n0: int, last: int)
    requires
        0 <= n0,
        all_used(bm, 0, pass_end(last)),
    ensures
        n0 >= last || all_used(bm, n0, pass_end(last)),
{
    if n0 < last {
        assert forall|g: int| n0 <= g < pass_end(last) implies bm_bit(bm, g) by {
            assert(0 <= g < pass_end(last));
        }
    }
}

} // verus!
