//! Masks over a chunk of bytes: one bit per byte, the lowest bit for the
//! first byte, set where the byte satisfies a predicate.

use vstd::prelude::*;
use vstd::std_specs::bits::*;
use crate::classify::{in_range_by_bits, Predicate, ASCII_END, ASCII_START, BACKSLASH, DOUBLE_QUOTE};

verus! {

/// Number of bytes that one mask covers.
pub const VECTOR_SIZE: usize = 32;

/// Bit `i` of `mask`, counted from the least significant.
pub open spec fn bit(mask: u32, i: int) -> bool {
    (mask >> (i as u32)) & 1u32 == 1u32
}

/// The mask of a chunk of at most 32 bytes: bit `i` is set exactly where
/// byte `i` satisfies `p`. A longer chunk has no mask, and zero stands for it.
pub open spec fn lane_mask(chunk: Seq<u8>, p: Predicate) -> u32
    decreases chunk.len(),
{
    if chunk.len() == 0 || chunk.len() > 32 {
        0u32
    } else if p.holds(chunk.last()) {
        lane_mask(chunk.drop_last(), p) | (1u32 << ((chunk.len() - 1) as u32))
    } else {
        lane_mask(chunk.drop_last(), p)
    }
}

/// Bit `i` of a mask is set exactly where byte `i` of the chunk satisfies the
/// predicate; the bits past the chunk's end are clear.
pub proof fn lemma_lane_mask_bits(chunk: Seq<u8>, p: Predicate)
    requires
        chunk.len() <= 32,
    ensures
        forall|i: int| 0 <= i < chunk.len() ==> (#[trigger] bit(lane_mask(chunk, p), i) <==> p.holds(chunk[i])),
        forall|i: int| chunk.len() <= i < 32 ==> !#[trigger] bit(lane_mask(chunk, p), i),
    decreases chunk.len(),
{
    let m = lane_mask(chunk, p);
    if chunk.len() == 0 {
        assert forall|i: int| 0 <= i < 32 implies !#[trigger] bit(m, i) by {
            let j = i as u32;
            assert((0u32 >> j) & 1u32 != 1u32) by (bit_vector);
        }
    } else {
        let rest = chunk.drop_last();
        let r = lane_mask(rest, p);
        let k = (chunk.len() - 1) as u32;
        lemma_lane_mask_bits(rest, p);
        assert forall|i: int| 0 <= i < 32 implies (#[trigger] bit(m, i) <==> (if i < chunk.len() {
            p.holds(chunk[i])
        } else {
            false
        })) by {
            let j = i as u32;
            assert(bit(r, i) <==> (i < rest.len() && p.holds(rest[i])));
            assert(((r | (1u32 << k)) >> j) & 1u32 == 1u32 <==> ((r >> j) & 1u32 == 1u32 || j == k))
                by (bit_vector)
                requires
                    j < 32,
                    k < 32,
            ;
        }
    }
}

/// In the mask of a full chunk, the count of trailing zero bits is the place
/// of the first byte that satisfies the predicate, and the mask is zero
/// exactly where no byte does.
pub proof fn lemma_trailing_zeros_first(chunk: Seq<u8>, p: Predicate)
    requires
        chunk.len() == 32,
    ensures
        lane_mask(chunk, p) == 0 <==> (forall|i: int| 0 <= i < 32 ==> !p.holds(#[trigger] chunk[i])),
        lane_mask(chunk, p) != 0 ==> {
            let first = u32_trailing_zeros(lane_mask(chunk, p)) as int;
            &&& 0 <= first < 32
            &&& p.holds(chunk[first])
            &&& forall|i: int| 0 <= i < first ==> !p.holds(#[trigger] chunk[i])
        },
{
    let m = lane_mask(chunk, p);
    let first = u32_trailing_zeros(m);
    lemma_lane_mask_bits(chunk, p);
    axiom_u32_trailing_zeros(m);
    if m != 0 {
        assert(bit(m, first as int));
        assert forall|i: int| 0 <= i < first implies !p.holds(#[trigger] chunk[i]) by {
            let j = i as u32;
            assert((m >> j) & 1u32 == 0u32);
            assert(!bit(m, i));
        }
    } else {
        assert forall|i: int| 0 <= i < 32 implies !p.holds(#[trigger] chunk[i]) by {
            let j = i as u32;
            assert((0u32 >> j) & 1u32 != 1u32) by (bit_vector);
            assert(!bit(m, i));
        }
    }
}

/// In the mask of a full chunk, the count of trailing one bits is the place
/// of the first byte that fails the predicate, and all bits are set exactly
/// where no byte fails it.
pub proof fn lemma_trailing_ones_first(chunk: Seq<u8>, p: Predicate)
    requires
        chunk.len() == 32,
    ensures
        lane_mask(chunk, p) == 0xffff_ffffu32 <==> (forall|i: int| 0 <= i < 32 ==> p.holds(#[trigger] chunk[i])),
        lane_mask(chunk, p) != 0xffff_ffffu32 ==> {
            let first = u32_trailing_ones(lane_mask(chunk, p)) as int;
            &&& 0 <= first < 32
            &&& !p.holds(chunk[first])
            &&& forall|i: int| 0 <= i < first ==> p.holds(#[trigger] chunk[i])
        },
{
    let m = lane_mask(chunk, p);
    let first = u32_trailing_ones(m);
    lemma_lane_mask_bits(chunk, p);
    axiom_u32_trailing_ones(m);
    if m != 0xffff_ffffu32 {
        assert(!bit(m, first as int));
        assert forall|i: int| 0 <= i < first implies p.holds(#[trigger] chunk[i]) by {
            let j = i as u32;
            assert((m >> j) & 1u32 == 1u32);
            assert(bit(m, i));
        }
    } else {
        assert forall|i: int| 0 <= i < 32 implies p.holds(#[trigger] chunk[i]) by {
            let j = i as u32;
            assert((0xffff_ffffu32 >> j) & 1u32 == 1u32) by (bit_vector)
                requires
                    j < 32,
            ;
            assert(bit(m, i));
        }
    }
}

/// Setting bit `i` of a mask that covers the first `i` bytes of a chunk,
/// where byte `i` satisfies the predicate, and leaving the mask as it is
/// where it does not, gives the mask of the first `i + 1` bytes.
proof fn lemma_lane_mask_step(data: Seq<u8>, start: int, i: int, p: Predicate)
    requires
        0 <= start,
        0 <= i < 32,
        start + i < data.len(),
    ensures
        lane_mask(data.subrange(start, start + i + 1), p) == if p.holds(data[start + i]) {
            lane_mask(data.subrange(start, start + i), p) | (1u32 << (i as u32))
        } else {
            lane_mask(data.subrange(start, start + i), p)
        },
{
    assert(data.subrange(start, start + i + 1).drop_last() =~= data.subrange(start, start + i));
}

/// The printable mask of the chunk of `data` that begins at `start`, by the
/// range-comparison strategy: each byte is compared with the two bounds, the
/// two answers are combined, and the lanes are gathered into one word.
pub fn printable_mask(data: &[u8], start: usize) -> (mask: u32)
    requires
        start + 32 <= data.len(),
    ensures
        mask == lane_mask(data@.subrange(start as int, start + 32), Predicate::Printable),
        forall|i: int|
            0 <= i < 32 ==> (#[trigger] bit(mask, i) <==> Predicate::Printable.holds(data@[start + i])),
{
    let mut mask: u32 = 0;
    let mut lane: u32 = 0;
    while lane < 32
        invariant
            lane <= 32,
            start + 32 <= data.len(),
            mask == lane_mask(data@.subrange(start as int, start + lane), Predicate::Printable),
        decreases 32 - lane,
    {
        let b = data[start + lane as usize];
        let lower_bound = b > ASCII_START;
        let upper_bound = ASCII_END > b;
        proof {
            lemma_lane_mask_step(data@, start as int, lane as int, Predicate::Printable);
        }
        if lower_bound && upper_bound {
            mask = mask | (1u32 << lane);
        }
        lane += 1;
    }
    proof {
        lemma_lane_mask_bits(data@.subrange(start as int, start + 32), Predicate::Printable);
    }
    mask
}

/// The printable mask of the chunk of `data` that begins at `start`, by the
/// bit-pattern strategy.
pub fn printable_mask_by_bits(data: &[u8], start: usize) -> (mask: u32)
    requires
        start + 32 <= data.len(),
    ensures
        mask == lane_mask(data@.subrange(start as int, start + 32), Predicate::Printable),
        forall|i: int|
            0 <= i < 32 ==> (#[trigger] bit(mask, i) <==> Predicate::Printable.holds(data@[start + i])),
{
    let mut mask: u32 = 0;
    let mut lane: u32 = 0;
    while lane < 32
        invariant
            lane <= 32,
            start + 32 <= data.len(),
            mask == lane_mask(data@.subrange(start as int, start + lane), Predicate::Printable),
        decreases 32 - lane,
    {
        let b = data[start + lane as usize];
        proof {
            lemma_lane_mask_step(data@, start as int, lane as int, Predicate::Printable);
        }
        if in_range_by_bits(b) {
            mask = mask | (1u32 << lane);
        }
        lane += 1;
    }
    proof {
        lemma_lane_mask_bits(data@.subrange(start as int, start + 32), Predicate::Printable);
    }
    mask
}

/// The escape-trigger mask of the chunk of `data` that begins at `start`:
/// each byte is compared with the backslash and with the double quote, and
/// the two answers are united.
pub fn escape_mask(data: &[u8], start: usize) -> (mask: u32)
    requires
        start + 32 <= data.len(),
    ensures
        mask == lane_mask(data@.subrange(start as int, start + 32), Predicate::EscapeTrigger),
        forall|i: int|
            0 <= i < 32 ==> (#[trigger] bit(mask, i) <==> Predicate::EscapeTrigger.holds(data@[start + i])),
{
    let mut mask: u32 = 0;
    let mut lane: u32 = 0;
    while lane < 32
        invariant
            lane <= 32,
            start + 32 <= data.len(),
            mask == lane_mask(data@.subrange(start as int, start + lane), Predicate::EscapeTrigger),
        decreases 32 - lane,
    {
        let b = data[start + lane as usize];
        let backslash = b == BACKSLASH;
        let double_quote = b == DOUBLE_QUOTE;
        proof {
            lemma_lane_mask_step(data@, start as int, lane as int, Predicate::EscapeTrigger);
        }
        if backslash || double_quote {
            mask = mask | (1u32 << lane);
        }
        lane += 1;
    }
    proof {
        lemma_lane_mask_bits(data@.subrange(start as int, start + 32), Predicate::EscapeTrigger);
    }
    mask
}

} // verus!
