use simd_rs::{
    escape_mask, find_ascii_non_simd, find_ascii_non_simd_unrolled, find_ascii_simd,
    find_ascii_simd_by_bits, find_backslash_or_double_quote_non_simd,
    find_backslash_or_double_quote_simd, find_non_ascii_non_simd, find_non_ascii_simd, in_range,
    in_range_by_bits, needs_backslash, printable_mask, printable_mask_by_bits, find_first,
    Predicate,
};

fn all_bytes() -> Vec<u8> {
    (0u16..256).map(|v| v as u8).collect()
}

/// A deterministic stream of bytes that leans towards the edges of the
/// printable range.
fn sample(len: usize, seed: u64) -> Vec<u8> {
    let edges: [u8; 10] = [0x00, 0x1f, 0x20, 0x22, 0x5c, 0x7e, 0x7f, 0x80, 0xff, 0x41];
    let mut state = seed | 1;
    let mut out = Vec::with_capacity(len);
    for _ in 0..len {
        state ^= state << 13;
        state ^= state >> 7;
        state ^= state << 17;
        if state & 1 == 0 {
            out.push(edges[((state >> 8) % 10) as usize]);
        } else {
            out.push((state >> 16) as u8);
        }
    }
    out
}

fn expected_offset(data: &[u8], wanted: fn(u8) -> bool) -> usize {
    data.iter().position(|&b| wanted(b)).unwrap_or(data.len())
}

fn printable(b: u8) -> bool {
    (0x20..=0x7e).contains(&b)
}

fn non_printable(b: u8) -> bool {
    !printable(b)
}

fn trigger(b: u8) -> bool {
    b == b'\\' || b == b'"'
}

#[test]
fn find_first_printable_without_printable_bytes() {
    let data: Vec<u8> = (0x00u8..0x20).collect();
    assert_eq!(find_ascii_simd(&data), 32);
    assert_eq!(find_ascii_simd_by_bits(&data), 32);
    assert_eq!(find_ascii_non_simd(&data), 32);
    assert_eq!(find_ascii_non_simd_unrolled(&data), 32);
}

#[test]
fn find_first_printable_in_empty_buffer() {
    assert_eq!(find_ascii_simd(b""), 0);
    assert_eq!(find_ascii_simd_by_bits(b""), 0);
    assert_eq!(find_ascii_non_simd(b""), 0);
    assert_eq!(find_ascii_non_simd_unrolled(b""), 0);
    assert_eq!(find_non_ascii_simd(b""), 0);
    assert_eq!(find_non_ascii_non_simd(b""), 0);
    assert_eq!(find_backslash_or_double_quote_simd(b""), 0);
    assert_eq!(find_backslash_or_double_quote_non_simd(b""), 0);
}

#[test]
fn find_non_printable_examples() {
    assert_eq!(find_non_ascii_simd(b"foo"), 3);
    assert_eq!(find_non_ascii_simd(b"\x01\x02a"), 0);
    assert_eq!(find_non_ascii_simd(b"\x0f\x10\x12a"), 0);
    assert_eq!(find_non_ascii_simd(b"\x1e\x1f a"), 0);
    assert_eq!(find_non_ascii_simd(b" a\x1f"), 2);
    let all = all_bytes();
    assert_eq!(find_non_ascii_simd(&all), 0);
    assert_eq!(find_non_ascii_simd(&all[0x1e..]), 0);
    assert_eq!(find_non_ascii_simd(&all[0x1f..]), 0);
    assert_eq!(find_non_ascii_simd(&all[0x20..]), 0x7f - 0x20);
    assert_eq!(find_non_ascii_simd(&all[0x7d..]), 2);
}

#[test]
fn find_printable_examples() {
    assert_eq!(find_ascii_simd(b"foo"), 0);
    assert_eq!(find_ascii_simd(b"\x01\x02a"), 2);
    assert_eq!(find_ascii_simd(b"\x1e\x1f a"), 2);
    let all = all_bytes();
    assert_eq!(find_ascii_simd(&all), 0x20);
    assert_eq!(find_ascii_simd(&all[0x7f..]), 256 - 0x7f);
    assert_eq!(find_ascii_simd(&all[0x21..]), 0);
}

#[test]
fn find_escape_trigger_examples() {
    assert_eq!(find_backslash_or_double_quote_simd(b"foo"), 3);
    assert_eq!(find_backslash_or_double_quote_simd(b"fo\"o"), 2);
    assert_eq!(find_backslash_or_double_quote_simd(b"\\"), 0);
    let mut long = vec![b'a'; 70];
    assert_eq!(find_backslash_or_double_quote_simd(&long), 70);
    long[65] = b'"';
    assert_eq!(find_backslash_or_double_quote_simd(&long), 65);
    long[40] = b'\\';
    assert_eq!(find_backslash_or_double_quote_simd(&long), 40);
    long[3] = b'"';
    assert_eq!(find_backslash_or_double_quote_simd(&long), 3);
}

#[test]
fn match_at_every_place_around_the_chunk_width() {
    for len in [1usize, 2, 31, 32, 33, 34, 63, 64, 65, 66, 96, 97, 130] {
        for at in 0..len {
            let mut low = vec![0x1fu8; len];
            low[at] = 0x20;
            assert_eq!(find_ascii_simd(&low), at);
            assert_eq!(find_ascii_simd_by_bits(&low), at);
            assert_eq!(find_ascii_non_simd(&low), at);
            assert_eq!(find_ascii_non_simd_unrolled(&low), at);

            let mut high = vec![0x7eu8; len];
            high[at] = 0x7f;
            assert_eq!(find_non_ascii_simd(&high), at);
            assert_eq!(find_non_ascii_non_simd(&high), at);

            let mut text = vec![b'x'; len];
            text[at] = b'\\';
            assert_eq!(find_backslash_or_double_quote_simd(&text), at);
            assert_eq!(find_backslash_or_double_quote_non_simd(&text), at);
        }
    }
}

#[test]
fn no_match_gives_the_length() {
    for len in [0usize, 1, 31, 32, 33, 64, 65, 200] {
        let low = vec![0x1fu8; len];
        assert_eq!(find_ascii_simd(&low), len);
        assert_eq!(find_ascii_simd_by_bits(&low), len);
        assert_eq!(find_ascii_non_simd(&low), len);
        assert_eq!(find_ascii_non_simd_unrolled(&low), len);
        let high = vec![0x80u8; len];
        assert_eq!(find_ascii_simd(&high), len);
        let text = vec![0x7eu8; len];
        assert_eq!(find_non_ascii_simd(&text), len);
        assert_eq!(find_non_ascii_non_simd(&text), len);
        assert_eq!(find_backslash_or_double_quote_simd(&text), len);
        assert_eq!(find_backslash_or_double_quote_non_simd(&text), len);
    }
}

#[test]
fn chunked_and_scalar_scans_agree() {
    for seed in 1..40u64 {
        for len in [0usize, 1, 5, 31, 32, 33, 64, 65, 100, 257] {
            let data = sample(len, seed * 7919);
            for start in 0..data.len().min(40) {
                let tail = &data[start..];
                let first = expected_offset(tail, printable);
                assert_eq!(find_ascii_simd(tail), first);
                assert_eq!(find_ascii_simd_by_bits(tail), first);
                assert_eq!(find_ascii_non_simd(tail), first);
                assert_eq!(find_ascii_non_simd_unrolled(tail), first);
                let first = expected_offset(tail, non_printable);
                assert_eq!(find_non_ascii_simd(tail), first);
                assert_eq!(find_non_ascii_non_simd(tail), first);
                let first = expected_offset(tail, trigger);
                assert_eq!(find_backslash_or_double_quote_simd(tail), first);
                assert_eq!(find_backslash_or_double_quote_non_simd(tail), first);
            }
        }
    }
}

#[test]
fn scanning_twice_gives_the_same_offset() {
    let data = sample(300, 42);
    assert_eq!(find_ascii_simd(&data), find_ascii_simd(&data));
    assert_eq!(find_non_ascii_simd(&data), find_non_ascii_simd(&data));
    assert_eq!(
        find_backslash_or_double_quote_simd(&data),
        find_backslash_or_double_quote_simd(&data)
    );
}

#[test]
fn every_byte_value_is_classified_alike() {
    for v in all_bytes() {
        assert_eq!(in_range(v), printable(v), "{v:#x}");
        assert_eq!(in_range_by_bits(v), printable(v), "{v:#x}");
        assert_ne!(printable(v), non_printable(v));
        assert_eq!(needs_backslash(v), v == 0x5c || v == 0x22);
    }
    assert!(!in_range(0x1f));
    assert!(in_range(0x20));
    assert!(in_range(0x7e));
    assert!(!in_range(0x7f));
    assert!(!in_range_by_bits(0x1f));
    assert!(in_range_by_bits(0x20));
    assert!(in_range_by_bits(0x7e));
    assert!(!in_range_by_bits(0x7f));
    assert!(!in_range_by_bits(0x80));
    assert!(!in_range_by_bits(0xa0));
}

#[test]
fn masks_have_one_bit_per_byte() {
    let mut chunk = vec![0u8; 32];
    assert_eq!(printable_mask(&chunk, 0), 0);
    assert_eq!(escape_mask(&chunk, 0), 0);
    chunk[0] = b'a';
    assert_eq!(printable_mask(&chunk, 0), 1);
    chunk[5] = b'"';
    chunk[31] = b'\\';
    assert_eq!(printable_mask(&chunk, 0), 0x8000_0021);
    assert_eq!(printable_mask_by_bits(&chunk, 0), 0x8000_0021);
    assert_eq!(escape_mask(&chunk, 0), 0x8000_0020);
    let text = vec![b' '; 32];
    assert_eq!(printable_mask(&text, 0), 0xffff_ffff);
    assert_eq!(printable_mask_by_bits(&text, 0), 0xffff_ffff);
}

#[test]
fn both_mask_strategies_agree_on_every_byte_value() {
    let all = all_bytes();
    for start in 0..=(256 - 32) {
        let by_range = printable_mask(&all, start);
        let by_bits = printable_mask_by_bits(&all, start);
        assert_eq!(by_range, by_bits);
        for lane in 0..32 {
            assert_eq!((by_range >> lane) & 1 == 1, printable(all[start + lane]));
        }
    }
    assert_eq!(printable_mask(&all, 0), 0);
    assert_eq!(printable_mask(&all, 0x20), 0xffff_ffff);
    assert_eq!(printable_mask(&all, 0x60), 0x7fff_ffff);
    assert_eq!(printable_mask(&all, 0x10), 0xffff_0000);
    assert_eq!(escape_mask(&all, 0x20), 1 << 2);
    assert_eq!(escape_mask(&all, 0x40), 1 << 0x1c);
}

#[test]
fn find_first_goes_by_the_predicate() {
    let data = b"\x01\x02ab\"c\x7f";
    assert_eq!(find_first(data, Predicate::Printable), 2);
    assert_eq!(find_first(data, Predicate::NonPrintable), 0);
    assert_eq!(find_first(data, Predicate::EscapeTrigger), 4);
    assert_eq!(find_first(&data[2..], Predicate::NonPrintable), 4);
    assert_eq!(find_first(b"", Predicate::EscapeTrigger), 0);
}
