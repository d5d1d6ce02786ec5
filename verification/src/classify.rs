//! Classification of a single byte: the three predicates that the scans look
//! for, and two ways of deciding the printable one.

use vstd::prelude::*;

verus! {

/// The first printable byte.
pub const SPACE: u8 = 0x20;

/// The last printable byte.
pub const TILDE: u8 = 0x7e;

/// The byte just below the printable range.
pub const ASCII_START: u8 = 0x1f;

/// The byte just above the printable range.
pub const ASCII_END: u8 = 0x7f;

/// The backslash.
pub const BACKSLASH: u8 = 0x5c;

/// The double quote.
pub const DOUBLE_QUOTE: u8 = 0x22;

/// A byte is printable when it lies between space and tilde, both included.
pub open spec fn is_printable(b: u8) -> bool {
    0x20 <= b <= 0x7e
}

/// A byte is an escape trigger when it is a backslash or a double quote.
pub open spec fn is_escape_trigger(b: u8) -> bool {
    b == 0x5c || b == 0x22
}

/// What a scan looks for.
#[derive(Clone, Copy, Debug, PartialEq, Eq)]
pub enum Predicate {
    /// A byte between space and tilde.
    Printable,
    /// Any other byte.
    NonPrintable,
    /// A backslash or a double quote.
    EscapeTrigger,
}

impl Predicate {
    /// Whether the byte `b` satisfies this predicate.
    pub open spec fn holds(self, b: u8) -> bool {
        match self {
            Predicate::Printable => is_printable(b),
            Predicate::NonPrintable => !is_printable(b),
            Predicate::EscapeTrigger => is_escape_trigger(b),
        }
    }
}

/// The range-comparison strategy: above the lower bound and below the upper.
pub open spec fn printable_by_range(b: u8) -> bool {
    b > ASCII_START && ASCII_END > b
}

/// The bit-pattern strategy: the top bit is clear, one of the two bits below
/// it is set, and the byte is not DEL.
pub open spec fn printable_by_bits(b: u8) -> bool {
    (b & 0x80) == 0 && (b & 0x60) != 0 && (b ^ 0x7f) != 0
}

/// Every byte value is either printable or non-printable and never both, and
/// the two strategies decide the printable predicate alike.
pub proof fn lemma_strategies_agree(v: u8)
    ensures
        Predicate::Printable.holds(v) != Predicate::NonPrintable.holds(v),
        printable_by_range(v) == is_printable(v),
        printable_by_bits(v) == is_printable(v),
        printable_by_range(v) == printable_by_bits(v),
{
    assert(((v & 0x80) == 0 && (v & 0x60) != 0 && (v ^ 0x7f) != 0) == (0x20 <= v && v <= 0x7e))
        by (bit_vector);
}

/// Decides the printable predicate by two comparisons.
pub fn in_range(b: u8) -> (r: bool)
    ensures
        r == is_printable(b),
        r == printable_by_range(b),
{
    b > ASCII_START && ASCII_END > b
}

/// Decides the printable predicate by bitwise operations alone.
pub fn in_range_by_bits(b: u8) -> (r: bool)
    ensures
        r == is_printable(b),
        r == printable_by_bits(b),
{
    proof {
        lemma_strategies_agree(b);
    }
    let high_clear = (b & 0x80) == 0;
    let upper_set = (b & 0x60) != 0;
    let not_del = (b ^ 0x7f) != 0;
    high_clear && upper_set && not_del
}

/// Decides the escape-trigger predicate.
pub fn needs_backslash(b: u8) -> (r: bool)
    ensures
        r == is_escape_trigger(b),
{
    b == BACKSLASH || b == DOUBLE_QUOTE
}

} // verus!
