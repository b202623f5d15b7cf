use vstd::prelude::*;

verus! {

/// Highest physical address (exclusive) that the bitmap can describe: 4 GiB.
pub const MAX_MEM_SIZE: u64 = 4294967296;

/// Number of frames below the 4 GiB ceiling: MAX_MEM_SIZE / PAGE_SIZE.
pub const NUM_OF_FRAMES: usize = 1048576;

/// Number of frame bits held by one bitmap word.
pub const BITS_PER_BLOCK: usize = 64;

/// Number of words in the bitmap.
pub const ARRAY_SIZE: usize = NUM_OF_FRAMES / BITS_PER_BLOCK;

/// Whether frame `i`'s bit is set in the bitmap: bit `i % 64` of word `i / 64`.
pub open spec fn bm_bit(bm: Seq<u64>, i: int) -> bool {
    bm[i / 64] & (1u64 << ((i % 64) as u64)) != 0u64
}

/// The bitmap after frame `i`'s bit is set.
pub open spec fn spec_mark(bm: Seq<u64>, i: int) -> Seq<u64> {
    bm.update(i / 64, bm[i / 64] | (1u64 << ((i % 64) as u64)))
}

/// The bitmap after frame `i`'s bit is cleared.
pub open spec fn spec_clear(bm: Seq<u64>, i: int) -> Seq<u64> {
    bm.update(i / 64, bm[i / 64] & !(1u64 << ((i % 64) as u64)))
}

/// Every frame in `[lo, hi)` has its bit set.
pub open spec fn all_used(bm: Seq<u64>, lo: int, hi: int) -> bool {
    forall|f: int| lo <= f < hi ==> bm_bit(bm, f)
}

/// First word boundary at or past `last`: the frame index at which a scan
/// pass bounded by `last` actually stops, since blocks are always scanned
/// whole.
pub open spec fn pass_end(last: int) -> int {
    if last <= 0 {
        0
    } else {
        ((last - 1) / 64 + 1) * 64
    }
}

/// Setting a bit in a word sets exactly that bit.
proof fn lemma_word_set_bit(w: u64, b1: u64, b2: u64)
    requires
        b1 < 64,
        b2 < 64,
    ensures
        ((w | (1u64 << b2)) & (1u64 << b1) != 0) <==> ((w & (1u64 << b1) != 0) || b1 == b2),
{
    assert(((w | (1u64 << b2)) & (1u64 << b1) != 0) == ((w & (1u64 << b1) != 0) || b1 == b2))
        by (bit_vector)
        requires
            b1 < 64,
            b2 < 64,
    ;
}

/// Clearing a bit in a word clears exactly that bit.
proof fn lemma_word_clear_bit(w: u64, b1: u64, b2: u64)
    requires
        b1 < 64,
        b2 < 64,
    ensures
        ((w & !(1u64 << b2)) & (1u64 << b1) != 0) <==> ((w & (1u64 << b1) != 0) && b1 != b2),
{
    assert(((w & !(1u64 << b2)) & (1u64 << b1) != 0) == ((w & (1u64 << b1) != 0) && b1 != b2))
        by (bit_vector)
        requires
            b1 < 64,
            b2 < 64,
    ;
}

/// An all-ones word has every one of its 64 bits set.
pub proof fn lemma_full_word_all_bits_set(w: u64)
    requires
        w == u64::MAX,
    ensures
        forall|b: u64| b < 64 ==> w & (1u64 << b) != 0,
{
    assert forall|b: u64| b < 64 implies w & (1u64 << b) != 0 by {
        assert(w != 0xffff_ffff_ffff_ffffu64 || w & (1u64 << b) != 0) by (bit_vector)
            requires
                b < 64,
        ;
    }
}

/// Marking frame `i` sets exactly frame `i`'s bit and leaves every other bit
/// as it was.
pub proof fn lemma_mark_effect(bm: Seq<u64>, i: int)
    requires
        0 <= i,
        i / 64 < bm.len(),
    ensures
        spec_mark(bm, i).len() == bm.len(),
        forall|f: int|
            0 <= f && f / 64 < bm.len() ==> (bm_bit(spec_mark(bm, i), f) <==> (bm_bit(bm, f)
                || f == i)),
{
    let nbm = spec_mark(bm, i);
    let wi = i / 64;
    assert forall|f: int| 0 <= f && f / 64 < bm.len() implies (bm_bit(nbm, f) <==> (bm_bit(bm, f)
        || f == i)) by {
        let wf = f / 64;
        if wf == wi {
            let b1 = (f % 64) as u64;
            let b2 = (i % 64) as u64;
            lemma_word_set_bit(bm[wi], b1, b2);
            assert(f == 64 * wf + (f % 64));
            assert(i == 64 * wi + (i % 64));
        } else {
            assert(nbm[wf] == bm[wf]);
        }
    }
}

/// Clearing frame `i` clears exactly frame `i`'s bit and leaves every other
/// bit as it was.
pub proof fn lemma_clear_effect(bm: Seq<u64>, i: int)
    requires
        0 <= i,
        i / 64 < bm.len(),
    ensures
        spec_clear(bm, i).len() == bm.len(),
        forall|f: int|
            0 <= f && f / 64 < bm.len() ==> (bm_bit(spec_clear(bm, i), f) <==> (bm_bit(bm, f)
                && f != i)),
{
    let nbm = spec_clear(bm, i);
    let wi = i / 64;
    assert forall|f: int| 0 <= f && f / 64 < bm.len() implies (bm_bit(nbm, f) <==> (bm_bit(bm, f)
        && f != i)) by {
        let wf = f / 64;
        if wf == wi {
            let b1 = (f % 64) as u64;
            let b2 = (i % 64) as u64;
            lemma_word_clear_bit(bm[wi], b1, b2);
            assert(f == 64 * wf + (f % 64));
            assert(i == 64 * wi + (i % 64));
        } else {
            assert(nbm[wf] == bm[wf]);
        }
    }
}

/// A full word covers its whole block: every frame whose bit lives in word
/// `w` is used.
pub proof fn lemma_full_block_all_used(bm: Seq<u64>, w: int)
    requires
        0 <= w < bm.len(),
        bm[w] == u64::MAX,
    ensures
        all_used(bm, 64 * w, 64 * w + 64),
{
    lemma_full_word_all_bits_set(bm[w]);
    assert forall|f: int| 64 * w <= f < 64 * w + 64 implies bm_bit(bm, f) by {
        assert(f / 64 == w);
        assert(((f % 64) as u64) < 64);
    }
}

/// Shape of the pass boundary: it sits at or past `last`, less than one block
/// beyond it, on a block boundary.
pub proof fn lemma_pass_end_bounds(last: int)
    requires
        0 <= last,
    ensures
        last <= pass_end(last) <= last + 63,
        pass_end(last) % 64 == 0,
{
}

/// A block entered below `last` ends at or before the pass boundary.
pub proof fn lemma_block_end_within_pass(n: int, last: int)
    requires
        0 <= n < last,
    ensures
        n < (n / 64 + 1) * 64 <= pass_end(last),
{
    assert(n / 64 <= (last - 1) / 64) by {
        vstd::arithmetic::div_mod::lemma_div_is_ordered(n, last - 1, 64);
    }
}

} // verus!
