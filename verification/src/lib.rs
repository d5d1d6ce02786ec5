//! Scanning of byte buffers for the boundaries between printable ASCII and
//! everything else, and an escaping encoder built on those scans.
//!
//! A scan answers with the offset of the first byte that satisfies its
//! predicate, or with the buffer's length where there is none. The encoder
//! writes printable bytes as they are, a backslash or a double quote behind a
//! backslash, and every other byte as `\x` and two hexadecimal digits.

pub mod classify;
pub mod escape;
pub mod mask;
pub mod scan;

pub use classify::{in_range, in_range_by_bits, needs_backslash, Predicate};
pub use classify::{ASCII_END, ASCII_START, BACKSLASH, DOUBLE_QUOTE, SPACE, TILDE};
pub use escape::{encode, to_ascii_or_hex, to_ascii_or_hex_simd_v1, to_ascii_or_hex_simd_v2};
pub use mask::{escape_mask, printable_mask, printable_mask_by_bits, VECTOR_SIZE};
pub use scan::{
    find_ascii_non_simd, find_ascii_non_simd_unrolled, find_ascii_simd, find_ascii_simd_by_bits,
    find_backslash_or_double_quote_non_simd, find_backslash_or_double_quote_simd, find_first,
    find_non_ascii_non_simd, find_non_ascii_simd,
};
