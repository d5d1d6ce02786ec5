//! Scans of a byte buffer for the first byte that satisfies a predicate.
//!
//! Every scan answers with an offset into the buffer, and with the buffer's
//! length where no byte matches. The chunked scans take 32 bytes at a time
//! through a mask and finish the rest of the buffer byte by byte.

use vstd::prelude::*;
use crate::classify::{in_range, Predicate, BACKSLASH, DOUBLE_QUOTE, SPACE, TILDE};
use crate::mask::{
    escape_mask, lemma_trailing_ones_first, lemma_trailing_zeros_first, printable_mask,
    printable_mask_by_bits, VECTOR_SIZE,
};

verus! {

/// `k` is the answer of a scan of `s` for `p`: no byte before `k` satisfies
/// `p`, and `k` is either the place of a byte that does or the length of `s`.
pub open spec fn is_first_match(s: Seq<u8>, p: Predicate, k: int) -> bool {
    &&& 0 <= k <= s.len()
    &&& forall|j: int| 0 <= j < k ==> !p.holds(#[trigger] s[j])
    &&& k < s.len() ==> p.holds(s[k])
}

/// The offset of the first byte of `s` that satisfies `p`, or the length of
/// `s` where there is none.
pub open spec fn first_match(s: Seq<u8>, p: Predicate) -> int
    decreases s.len(),
{
    if s.len() == 0 || p.holds(s[0]) {
        0
    } else {
        1 + first_match(s.drop_first(), p)
    }
}

/// An offset that answers a scan is the offset of the first match.
pub proof fn lemma_first_match_characterized(s: Seq<u8>, p: Predicate, k: int)
    requires
        is_first_match(s, p, k),
    ensures
        k == first_match(s, p),
    decreases s.len(),
{
    if k > 0 {
        let rest = s.drop_first();
        assert(!p.holds(s[0]));
        assert forall|j: int| 0 <= j < k - 1 implies !p.holds(#[trigger] rest[j]) by {
            assert(rest[j] == s[j + 1]);
        }
        lemma_first_match_characterized(rest, p, k - 1);
    }
}

/// The offset of the first match answers the scan.
pub proof fn lemma_first_match_is_first(s: Seq<u8>, p: Predicate)
    ensures
        is_first_match(s, p, first_match(s, p)),
    decreases s.len(),
{
    if !(s.len() == 0 || p.holds(s[0])) {
        let rest = s.drop_first();
        let k = first_match(rest, p);
        lemma_first_match_is_first(rest, p);
        assert forall|j: int| 0 <= j < k + 1 implies !p.holds(#[trigger] s[j]) by {
            if j > 0 {
                assert(s[j] == rest[j - 1]);
            }
        }
    }
}

/// Two scans of one buffer for one predicate end at the same offset, by
/// whatever strategy each went and however often the scan is repeated.
pub proof fn lemma_scans_agree(s: Seq<u8>, p: Predicate, a: int, b: int)
    requires
        is_first_match(s, p, a),
        is_first_match(s, p, b),
    ensures
        a == b,
{
    lemma_first_match_characterized(s, p, a);
    lemma_first_match_characterized(s, p, b);
}

/// Where no byte of the buffer satisfies the predicate, the scan answers with
/// the buffer's length.
pub proof fn lemma_no_match_gives_length(s: Seq<u8>, p: Predicate)
    requires
        forall|j: int| 0 <= j < s.len() ==> !p.holds(#[trigger] s[j]),
    ensures
        first_match(s, p) == s.len(),
{
    lemma_first_match_is_first(s, p);
}

/// The offset of the first printable byte of `data`, chunk by chunk with the
/// range-comparison mask.
pub fn find_ascii_simd(data: &[u8]) -> (offset: usize)
    ensures
        is_first_match(data@, Predicate::Printable, offset as int),
        offset == first_match(data@, Predicate::Printable),
{
    let len = data.len();
    let mut pos: usize = 0;
    while len - pos > VECTOR_SIZE
        invariant
            len == data.len(),
            pos <= len,
            forall|j: int| 0 <= j < pos ==> !Predicate::Printable.holds(#[trigger] data@[j]),
        decreases len - pos,
    {
        let mask = printable_mask(data, pos);
        let offset = mask.trailing_zeros();
        proof {
            let chunk = data@.subrange(pos as int, pos + 32);
            lemma_trailing_zeros_first(chunk, Predicate::Printable);
            assert forall|j: int| pos <= j < pos + 32 implies data@[j] == chunk[j - pos] by {}
            if mask != 0 {
                assert(data@[pos + offset] == chunk[offset as int]);
                lemma_first_match_characterized(data@, Predicate::Printable, pos + offset);
            }
        }
        if mask != 0 {
            return pos + offset as usize;
        }
        pos += VECTOR_SIZE;
    }
    while pos < len
        invariant
            len == data.len(),
            pos <= len,
            forall|j: int| 0 <= j < pos ==> !Predicate::Printable.holds(#[trigger] data@[j]),
        decreases len - pos,
    {
        if data[pos] >= SPACE && data[pos] <= TILDE {
            proof {
                lemma_first_match_characterized(data@, Predicate::Printable, pos as int);
            }
            return pos;
        }
        pos += 1;
    }
    proof {
        lemma_first_match_characterized(data@, Predicate::Printable, len as int);
    }
    len
}

/// The offset of the first printable byte of `data`, chunk by chunk with the
/// bit-pattern mask.
pub fn find_ascii_simd_by_bits(data: &[u8]) -> (offset: usize)
    ensures
        is_first_match(data@, Predicate::Printable, offset as int),
        offset == first_match(data@, Predicate::Printable),
{
    let len = data.len();
    let mut pos: usize = 0;
    while len - pos > VECTOR_SIZE
        invariant
            len == data.len(),
            pos <= len,
            forall|j: int| 0 <= j < pos ==> !Predicate::Printable.holds(#[trigger] data@[j]),
        decreases len - pos,
    {
        let mask = printable_mask_by_bits(data, pos);
        let offset = mask.trailing_zeros();
        proof {
            let chunk = data@.subrange(pos as int, pos + 32);
            lemma_trailing_zeros_first(chunk, Predicate::Printable);
            assert forall|j: int| pos <= j < pos + 32 implies data@[j] == chunk[j - pos] by {}
            if mask != 0 {
                assert(data@[pos + offset] == chunk[offset as int]);
                lemma_first_match_characterized(data@, Predicate::Printable, pos + offset);
            }
        }
        if mask != 0 {
            return pos + offset as usize;
        }
        pos += VECTOR_SIZE;
    }
    while pos < len
        invariant
            len == data.len(),
            pos <= len,
            forall|j: int| 0 <= j < pos ==> !Predicate::Printable.holds(#[trigger] data@[j]),
        decreases len - pos,
    {
        if data[pos] >= SPACE && data[pos] <= TILDE {
            proof {
                lemma_first_match_characterized(data@, Predicate::Printable, pos as int);
            }
            return pos;
        }
        pos += 1;
    }
    proof {
        lemma_first_match_characterized(data@, Predicate::Printable, len as int);
    }
    len
}

/// The offset of the first backslash or double quote of `data`, chunk by
/// chunk.
pub fn find_backslash_or_double_quote_simd(data: &[u8]) -> (offset: usize)
    ensures
        is_first_match(data@, Predicate::EscapeTrigger, offset as int),
        offset == first_match(data@, Predicate::EscapeTrigger),
{
    let len = data.len();
    let mut pos: usize = 0;
    while len - pos > VECTOR_SIZE
        invariant
            len == data.len(),
            pos <= len,
            forall|j: int| 0 <= j < pos ==> !Predicate::EscapeTrigger.holds(#[trigger] data@[j]),
        decreases len - pos,
    {
        let mask = escape_mask(data, pos);
        let offset = mask.trailing_zeros();
        proof {
            let chunk = data@.subrange(pos as int, pos + 32);
            lemma_trailing_zeros_first(chunk, Predicate::EscapeTrigger);
            assert forall|j: int| pos <= j < pos + 32 implies data@[j] == chunk[j - pos] by {}
            if mask != 0 {
                assert(data@[pos + offset] == chunk[offset as int]);
                lemma_first_match_characterized(data@, Predicate::EscapeTrigger, pos + offset);
            }
        }
        if mask != 0 {
            return pos + offset as usize;
        }
        pos += VECTOR_SIZE;
    }
    while pos < len
        invariant
            len == data.len(),
            pos <= len,
            forall|j: int| 0 <= j < pos ==> !Predicate::EscapeTrigger.holds(#[trigger] data@[j]),
        decreases len - pos,
    {
        if data[pos] == BACKSLASH || data[pos] == DOUBLE_QUOTE {
            proof {
                lemma_first_match_characterized(data@, Predicate::EscapeTrigger, pos as int);
            }
            return pos;
        }
        pos += 1;
    }
    proof {
        lemma_first_match_characterized(data@, Predicate::EscapeTrigger, len as int);
    }
    len
}

/// The offset of the first byte of `data` that is not printable, chunk by
/// chunk: the first clear bit of the printable mask.
pub fn find_non_ascii_simd(data: &[u8]) -> (offset: usize)
    ensures
        is_first_match(data@, Predicate::NonPrintable, offset as int),
        offset == first_match(data@, Predicate::NonPrintable),
{
    let len = data.len();
    let mut pos: usize = 0;
    while len - pos > VECTOR_SIZE
        invariant
            len == data.len(),
            pos <= len,
            forall|j: int| 0 <= j < pos ==> !Predicate::NonPrintable.holds(#[trigger] data@[j]),
        decreases len - pos,
    {
        let mask = printable_mask(data, pos);
        let offset = mask.trailing_ones();
        proof {
            let chunk = data@.subrange(pos as int, pos + 32);
            lemma_trailing_ones_first(chunk, Predicate::Printable);
            assert forall|j: int| pos <= j < pos + 32 implies data@[j] == chunk[j - pos] by {}
            if mask != 0xffff_ffffu32 {
                assert(data@[pos + offset] == chunk[offset as int]);
                lemma_first_match_characterized(data@, Predicate::NonPrintable, pos + offset);
            }
        }
        if mask != 0xffff_ffffu32 {
            return pos + offset as usize;
        }
        pos += VECTOR_SIZE;
    }
    while pos < len
        invariant
            len == data.len(),
            pos <= len,
            forall|j: int| 0 <= j < pos ==> !Predicate::NonPrintable.holds(#[trigger] data@[j]),
        decreases len - pos,
    {
        if data[pos] < SPACE || data[pos] > TILDE {
            proof {
                lemma_first_match_characterized(data@, Predicate::NonPrintable, pos as int);
            }
            return pos;
        }
        pos += 1;
    }
    proof {
        lemma_first_match_characterized(data@, Predicate::NonPrintable, len as int);
    }
    len
}

/// The offset of the first printable byte of `data`, byte by byte.
pub fn find_ascii_non_simd(data: &[u8]) -> (offset: usize)
    ensures
        is_first_match(data@, Predicate::Printable, offset as int),
        offset == first_match(data@, Predicate::Printable),
{
    let mut i: usize = 0;
    while i < data.len()
        invariant
            i <= data.len(),
            forall|j: int| 0 <= j < i ==> !Predicate::Printable.holds(#[trigger] data@[j]),
        decreases data.len() - i,
    {
        let c = data[i];
        if c >= SPACE && c <= TILDE {
            proof {
                lemma_first_match_characterized(data@, Predicate::Printable, i as int);
            }
            return i;
        }
        i += 1;
    }
    proof {
        lemma_first_match_characterized(data@, Predicate::Printable, i as int);
    }
    i
}

/// The offset of the first byte of `data` that is not printable, byte by
/// byte.
pub fn find_non_ascii_non_simd(data: &[u8]) -> (offset: usize)
    ensures
        is_first_match(data@, Predicate::NonPrintable, offset as int),
        offset == first_match(data@, Predicate::NonPrintable),
{
    let mut i: usize = 0;
    while i < data.len()
        invariant
            i <= data.len(),
            forall|j: int| 0 <= j < i ==> !Predicate::NonPrintable.holds(#[trigger] data@[j]),
        decreases data.len() - i,
    {
        let c = data[i];
        if c < SPACE || c > TILDE {
            proof {
                lemma_first_match_characterized(data@, Predicate::NonPrintable, i as int);
            }
            return i;
        }
        i += 1;
    }
    proof {
        lemma_first_match_characterized(data@, Predicate::NonPrintable, i as int);
    }
    i
}

/// The offset of the first backslash or double quote of `data`, byte by byte.
pub fn find_backslash_or_double_quote_non_simd(data: &[u8]) -> (offset: usize)
    ensures
        is_first_match(data@, Predicate::EscapeTrigger, offset as int),
        offset == first_match(data@, Predicate::EscapeTrigger),
{
    let mut i: usize = 0;
    while i < data.len()
        invariant
            i <= data.len(),
            forall|j: int| 0 <= j < i ==> !Predicate::EscapeTrigger.holds(#[trigger] data@[j]),
        decreases data.len() - i,
    {
        let c = data[i];
        if c == BACKSLASH || c == DOUBLE_QUOTE {
            proof {
                lemma_first_match_characterized(data@, Predicate::EscapeTrigger, i as int);
            }
            return i;
        }
        i += 1;
    }
    proof {
        lemma_first_match_characterized(data@, Predicate::EscapeTrigger, i as int);
    }
    i
}

/// The place, within the chunk of `data` that begins at `start`, of the first
/// printable byte, or 32 where the chunk has none. Each byte is tested in its
/// own statement.
fn first_printable_in_chunk(data: &[u8], start: usize) -> (lane: usize)
    requires
        start + 32 <= data.len(),
    ensures
        lane <= 32,
        forall|j: int| start <= j < start + lane ==> !Predicate::Printable.holds(#[trigger] data@[j]),
        lane < 32 ==> Predicate::Printable.holds(data@[start + lane]),
{
    if in_range(data[start]) {
        return 0;
    }
    if in_range(data[start + 1]) {
        return 1;
    }
    if in_range(data[start + 2]) {
        return 2;
    }
    if in_range(data[start + 3]) {
        return 3;
    }
    if in_range(data[start + 4]) {
        return 4;
    }
    if in_range(data[start + 5]) {
        return 5;
    }
    if in_range(data[start + 6]) {
        return 6;
    }
    if in_range(data[start + 7]) {
        return 7;
    }
    if in_range(data[start + 8]) {
        return 8;
    }
    if in_range(data[start + 9]) {
        return 9;
    }
    if in_range(data[start + 10]) {
        return 10;
    }
    if in_range(data[start + 11]) {
        return 11;
    }
    if in_range(data[start + 12]) {
        return 12;
    }
    if in_range(data[start + 13]) {
        return 13;
    }
    if in_range(data[start + 14]) {
        return 14;
    }
    if in_range(data[start + 15]) {
        return 15;
    }
    if in_range(data[start + 16]) {
        return 16;
    }
    if in_range(data[start + 17]) {
        return 17;
    }
    if in_range(data[start + 18]) {
        return 18;
    }
    if in_range(data[start + 19]) {
        return 19;
    }
    if in_range(data[start + 20]) {
        return 20;
    }
    if in_range(data[start + 21]) {
        return 21;
    }
    if in_range(data[start + 22]) {
        return 22;
    }
    if in_range(data[start + 23]) {
        return 23;
    }
    if in_range(data[start + 24]) {
        return 24;
    }
    if in_range(data[start + 25]) {
        return 25;
    }
    if in_range(data[start + 26]) {
        return 26;
    }
    if in_range(data[start + 27]) {
        return 27;
    }
    if in_range(data[start + 28]) {
        return 28;
    }
    if in_range(data[start + 29]) {
        return 29;
    }
    if in_range(data[start + 30]) {
        return 30;
    }
    if in_range(data[start + 31]) {
        return 31;
    }
    32
}

/// The offset of the first printable byte of `data`, 32 bytes at a time
/// without a mask, the rest of the buffer byte by byte.
pub fn find_ascii_non_simd_unrolled(data: &[u8]) -> (offset: usize)
    ensures
        is_first_match(data@, Predicate::Printable, offset as int),
        offset == first_match(data@, Predicate::Printable),
{
    let len = data.len();
    let mut pos: usize = 0;
    while len - pos > VECTOR_SIZE
        invariant
            len == data.len(),
            pos <= len,
            forall|j: int| 0 <= j < pos ==> !Predicate::Printable.holds(#[trigger] data@[j]),
        decreases len - pos,
    {
        let lane = first_printable_in_chunk(data, pos);
        if lane < VECTOR_SIZE {
            proof {
                lemma_first_match_characterized(data@, Predicate::Printable, pos + lane);
            }
            return pos + lane;
        }
        pos += VECTOR_SIZE;
    }
    while pos < len
        invariant
            len == data.len(),
            pos <= len,
            forall|j: int| 0 <= j < pos ==> !Predicate::Printable.holds(#[trigger] data@[j]),
        decreases len - pos,
    {
        if data[pos] >= SPACE && data[pos] <= TILDE {
            proof {
                lemma_first_match_characterized(data@, Predicate::Printable, pos as int);
            }
            return pos;
        }
        pos += 1;
    }
    proof {
        lemma_first_match_characterized(data@, Predicate::Printable, len as int);
    }
    len
}

/// The offset of the first byte of `data` that satisfies `p`, by the chunked
/// scan for that predicate.
pub fn find_first(data: &[u8], p: Predicate) -> (offset: usize)
    ensures
        is_first_match(data@, p, offset as int),
        offset == first_match(data@, p),
{
    match p {
        Predicate::Printable => find_ascii_simd(data),
        Predicate::NonPrintable => find_non_ascii_simd(data),
        Predicate::EscapeTrigger => find_backslash_or_double_quote_simd(data),
    }
}

} // verus!
