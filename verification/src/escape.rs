//! The escaping encoder: printable bytes go out as they are, a backslash or a
//! double quote behind a backslash, every other byte as `\x` and two
//! lowercase hexadecimal digits.

use vstd::prelude::*;
use vstd::string::StringExecFns;
use crate::classify::{is_escape_trigger, is_printable, BACKSLASH, DOUBLE_QUOTE, SPACE, TILDE};
use crate::scan::{find_ascii_simd, find_non_ascii_simd};

verus! {

/// The lowercase hexadecimal digit of a value below 16.
pub open spec fn hex_digit(n: int) -> char {
    if n < 10 {
        (0x30 + n) as char
    } else {
        (0x57 + n) as char
    }
}

/// The text that stands for one byte.
pub open spec fn escape_byte(b: u8) -> Seq<char> {
    if !is_printable(b) {
        seq!['\\', 'x', hex_digit(b as int / 16), hex_digit(b as int % 16)]
    } else if is_escape_trigger(b) {
        seq!['\\', b as char]
    } else {
        seq![b as char]
    }
}

/// The text that stands for a buffer: the texts of its bytes, in order.
pub open spec fn escaped(s: Seq<u8>) -> Seq<char>
    decreases s.len(),
{
    if s.len() == 0 {
        Seq::empty()
    } else {
        escaped(s.drop_last()) + escape_byte(s.last())
    }
}

/// The bytes of `bytes` read as characters, one for one.
pub open spec fn as_text(bytes: Seq<u8>) -> Seq<char> {
    Seq::new(bytes.len(), |i: int| bytes[i] as char)
}

/// The text of two buffers joined is the two texts joined.
pub proof fn lemma_escaped_concat(a: Seq<u8>, b: Seq<u8>)
    ensures
        escaped(a + b) == escaped(a) + escaped(b),
    decreases b.len(),
{
    if b.len() == 0 {
        assert(a + b =~= a);
        assert(escaped(a) + escaped(b) =~= escaped(a));
    } else {
        assert((a + b).drop_last() =~= a + b.drop_last());
        lemma_escaped_concat(a, b.drop_last());
        assert(escaped(a + b) =~= escaped(a) + escaped(b));
    }
}

/// The text of a buffer is at most four times as long as the buffer, and at
/// least as long.
pub proof fn lemma_escaped_len(s: Seq<u8>)
    ensures
        s.len() <= escaped(s).len() <= 4 * s.len(),
    decreases s.len(),
{
    if s.len() > 0 {
        lemma_escaped_len(s.drop_last());
    }
}

/// Every character of the text of a buffer is printable ASCII.
pub proof fn lemma_escaped_is_printable(s: Seq<u8>)
    ensures
        forall|i: int| 0 <= i < escaped(s).len() ==> 0x20 <= (#[trigger] escaped(s)[i]) as int <= 0x7e,
    decreases s.len(),
{
    if s.len() > 0 {
        let front = escaped(s.drop_last());
        let back = escape_byte(s.last());
        lemma_escaped_is_printable(s.drop_last());
        assert forall|i: int| 0 <= i < escaped(s).len() implies 0x20 <= (#[trigger] escaped(
            s,
        )[i]) as int <= 0x7e by {
            if i < front.len() {
                assert(escaped(s)[i] == front[i]);
            } else {
                assert(escaped(s)[i] == back[i - front.len()]);
            }
        }
    }
}

/// The value of a lowercase hexadecimal digit.
pub open spec fn hex_value(c: char) -> int {
    if (c as int) < 0x3a {
        c as int - 0x30
    } else {
        c as int - 0x57
    }
}

/// The buffer that a text stands for: `\x` and two digits give the byte of
/// that value, a backslash before any other character gives that character,
/// and a character without a backslash gives itself.
pub open spec fn unescaped(t: Seq<char>) -> Seq<u8>
    decreases t.len(),
{
    if t.len() == 0 {
        Seq::empty()
    } else if t[0] != '\\' {
        seq![t[0] as u8] + unescaped(t.skip(1))
    } else if t.len() >= 4 && t[1] == 'x' {
        seq![(hex_value(t[2]) * 16 + hex_value(t[3])) as u8] + unescaped(t.skip(4))
    } else if t.len() >= 2 {
        seq![t[1] as u8] + unescaped(t.skip(2))
    } else {
        Seq::empty()
    }
}

/// Reading back the text of one byte, with any text behind it, gives the
/// byte and then what the text behind it stands for.
pub proof fn lemma_unescaped_step(b: u8, rest: Seq<char>)
    ensures
        unescaped(escape_byte(b) + rest) == seq![b] + unescaped(rest),
{
    let t = escape_byte(b) + rest;
    if !is_printable(b) {
        assert(t.skip(4) =~= rest);
        assert(hex_value(hex_digit(b as int / 16)) == b as int / 16);
        assert(hex_value(hex_digit(b as int % 16)) == b as int % 16);
    } else if is_escape_trigger(b) {
        assert(t.skip(2) =~= rest);
    } else {
        assert(t.skip(1) =~= rest);
    }
}

/// Reading back the text of a buffer gives the buffer.
pub proof fn lemma_unescaped_inverts_escaped(s: Seq<u8>)
    ensures
        unescaped(escaped(s)) == s,
    decreases s.len(),
{
    if s.len() == 0 {
        assert(unescaped(escaped(s)) =~= s);
    } else {
        let head = seq![s[0]];
        let rest = s.drop_first();
        assert(s =~= head + rest);
        assert(escaped(head.drop_last()) =~= Seq::<char>::empty());
        assert(escaped(head) =~= escape_byte(s[0]));
        lemma_escaped_concat(head, rest);
        lemma_unescaped_step(s[0], escaped(rest));
        lemma_unescaped_inverts_escaped(rest);
        assert(seq![s[0]] + rest =~= s);
    }
}

/// `String::push`: the string afterwards is the string before with the
/// character `c` added at its end.
#[verifier::external_body]
fn push_char(out: &mut String, c: char)
    ensures
        final(out)@ == old(out)@.push(c),
{
    out.push(c);
}

/// The ASCII code of the lowercase hexadecimal digit of `n`.
fn hex_digit_code(n: u8) -> (d: u8)
    requires
        n < 16,
    ensures
        d as char == hex_digit(n as int),
{
    if n < 10 {
        0x30 + n
    } else {
        0x57 + n
    }
}

/// Appends `\x` and the two hexadecimal digits of `c` to `out`.
fn push_hex(c: u8, out: &mut String)
    ensures
        final(out)@ == old(out)@ + seq!['\\', 'x', hex_digit(c as int / 16), hex_digit(c as int % 16)],
{
    proof {
        reveal_strlit("\\x");
        assert(c >> 4 == c / 16 && c & 0xf == c % 16 && c >> 4 < 16 && c & 0xf < 16) by (bit_vector);
    }
    out.append("\\x");
    push_char(out, hex_digit_code(c >> 4) as char);
    push_char(out, hex_digit_code(c & 0xf) as char);
    assert(out@ =~= old(out)@ + seq!['\\', 'x', hex_digit(c as int / 16), hex_digit(c as int % 16)]);
}

/// Appends the printable byte `c` to `out`, behind a backslash where it is a
/// backslash or a double quote.
fn push_printable(c: u8, out: &mut String)
    requires
        is_printable(c),
    ensures
        final(out)@ == old(out)@ + escape_byte(c),
{
    if c == BACKSLASH || c == DOUBLE_QUOTE {
        push_char(out, '\\');
    }
    push_char(out, c as char);
    assert(out@ =~= old(out)@ + escape_byte(c));
}

/// Appends to `out` the text that stands for `data`, byte by byte.
pub fn to_ascii_or_hex(data: &[u8], out: &mut String)
    ensures
        final(out)@ == old(out)@ + escaped(data@),
        old(out)@.len() + data@.len() <= final(out)@.len() <= old(out)@.len() + 4 * data@.len(),
{
    let mut i: usize = 0;
    while i < data.len()
        invariant
            i <= data.len(),
            out@ == old(out)@ + escaped(data@.take(i as int)),
        decreases data.len() - i,
    {
        let c = data[i];
        proof {
            assert(data@.take(i + 1).drop_last() =~= data@.take(i as int));
        }
        if c >= SPACE && c <= TILDE {
            push_printable(c, out);
        } else {
            push_hex(c, out);
        }
        i += 1;
    }
    proof {
        assert(data@.take(i as int) =~= data@);
        lemma_escaped_len(data@);
    }
}

/// Appends `\x` and the two hexadecimal digits of `c` to `buffer`, as ASCII.
fn push_hex_bytes(c: u8, buffer: &mut Vec<u8>)
    requires
        !is_printable(c),
    ensures
        as_text(final(buffer)@) == as_text(old(buffer)@) + escape_byte(c),
{
    proof {
        assert(c >> 4 == c / 16 && c & 0xf == c % 16 && c >> 4 < 16 && c & 0xf < 16) by (bit_vector);
    }
    buffer.push(BACKSLASH);
    buffer.push(0x78);
    buffer.push(hex_digit_code(c >> 4));
    buffer.push(hex_digit_code(c & 0xf));
    assert(as_text(buffer@) =~= as_text(old(buffer)@) + escape_byte(c));
}

/// Appends the printable byte `c` to `buffer`, behind a backslash where it is
/// a backslash or a double quote.
fn push_printable_bytes(c: u8, buffer: &mut Vec<u8>)
    requires
        is_printable(c),
    ensures
        as_text(final(buffer)@) == as_text(old(buffer)@) + escape_byte(c),
{
    if c == BACKSLASH || c == DOUBLE_QUOTE {
        buffer.push(BACKSLASH);
    }
    buffer.push(c);
    assert(as_text(buffer@) =~= as_text(old(buffer)@) + escape_byte(c));
}

/// Appends to `out` the text that stands for `data`, run by run: a scan for
/// the first printable byte bounds a run that goes out in hexadecimal, a scan
/// for the first byte that is not printable bounds a run that goes out as it
/// is, and so in turn to the end of `data`.
pub fn to_ascii_or_hex_simd_v1(data: &[u8], out: &mut String)
    ensures
        final(out)@ == old(out)@ + escaped(data@),
        old(out)@.len() + data@.len() <= final(out)@.len() <= old(out)@.len() + 4 * data@.len(),
{
    let mut tail = data;
    let ghost mut done: int = 0;
    assert(tail@ =~= data@.subrange(0, data@.len() as int));
    assert(tail@.len() == 0 ==> data@.take(0) =~= data@);
    while !tail.is_empty()
        invariant
            0 <= done <= data@.len(),
            tail@ == data@.subrange(done, data@.len() as int),
            tail@.len() == 0 ==> data@.take(done) == data@,
            out@ == old(out)@ + escaped(data@.take(done)),
        ensures
            out@ == old(out)@ + escaped(data@),
        decreases tail@.len(),
    {
        let i = find_ascii_simd(tail);
        let (non_ascii_piece, rest) = tail.split_at(i);
        let mut k: usize = 0;
        while k < non_ascii_piece.len()
            invariant
                k <= non_ascii_piece.len(),
                0 <= done,
                i == non_ascii_piece@.len(),
                done + i <= data@.len(),
                non_ascii_piece@ == data@.subrange(done, done + i),
                forall|j: int| 0 <= j < i ==> !is_printable(#[trigger] non_ascii_piece@[j]),
                out@ == old(out)@ + escaped(data@.take(done + k)),
            decreases non_ascii_piece.len() - k,
        {
            let c = non_ascii_piece[k];
            proof {
                assert(data@.take(done + k + 1).drop_last() =~= data@.take(done + k));
            }
            push_hex(c, out);
            k += 1;
        }
        proof {
            done = done + i;
        }
        tail = rest;
        assert(tail@ =~= data@.subrange(done, data@.len() as int));
        if tail.is_empty() {
            assert(data@.take(done) =~= data@);
            break;
        }
        assert(is_printable(tail@[0]));
        let i = find_non_ascii_simd(tail);
        let (ascii_piece, rest) = tail.split_at(i);
        let mut k: usize = 0;
        while k < ascii_piece.len()
            invariant
                k <= ascii_piece.len(),
                0 <= done,
                i == ascii_piece@.len(),
                done + i <= data@.len(),
                ascii_piece@ == data@.subrange(done, done + i),
                forall|j: int| 0 <= j < i ==> is_printable(#[trigger] ascii_piece@[j]),
                out@ == old(out)@ + escaped(data@.take(done + k)),
            decreases ascii_piece.len() - k,
        {
            let c = ascii_piece[k];
            proof {
                assert(data@.take(done + k + 1).drop_last() =~= data@.take(done + k));
            }
            push_printable(c, out);
            k += 1;
        }
        proof {
            done = done + i;
        }
        tail = rest;
        assert(tail@ =~= data@.subrange(done, data@.len() as int));
        assert(tail@.len() == 0 ==> data@.take(done) =~= data@);
    }
    proof {
        lemma_escaped_len(data@);
    }
}

/// Appends to `out` the text that stands for `data`, run by run as
/// [`to_ascii_or_hex_simd_v1`] does, gathering the text as ASCII bytes first
/// and adding them to `out` at the end.
pub fn to_ascii_or_hex_simd_v2(data: &[u8], out: &mut String)
    ensures
        final(out)@ == old(out)@ + escaped(data@),
        old(out)@.len() + data@.len() <= final(out)@.len() <= old(out)@.len() + 4 * data@.len(),
{
    let mut buffer: Vec<u8> = Vec::new();
    let mut tail = data;
    let ghost mut done: int = 0;
    assert(tail@ =~= data@.subrange(0, data@.len() as int));
    assert(tail@.len() == 0 ==> data@.take(0) =~= data@);
    assert(as_text(buffer@) =~= escaped(data@.take(0)));
    while !tail.is_empty()
        invariant
            0 <= done <= data@.len(),
            tail@ == data@.subrange(done, data@.len() as int),
            tail@.len() == 0 ==> data@.take(done) == data@,
            as_text(buffer@) == escaped(data@.take(done)),
        ensures
            as_text(buffer@) == escaped(data@),
        decreases tail@.len(),
    {
        let i = find_ascii_simd(tail);
        let (non_ascii_piece, rest) = tail.split_at(i);
        let mut k: usize = 0;
        while k < non_ascii_piece.len()
            invariant
                k <= non_ascii_piece.len(),
                0 <= done,
                i == non_ascii_piece@.len(),
                done + i <= data@.len(),
                non_ascii_piece@ == data@.subrange(done, done + i),
                forall|j: int| 0 <= j < i ==> !is_printable(#[trigger] non_ascii_piece@[j]),
                as_text(buffer@) == escaped(data@.take(done + k)),
            decreases non_ascii_piece.len() - k,
        {
            let c = non_ascii_piece[k];
            proof {
                assert(data@.take(done + k + 1).drop_last() =~= data@.take(done + k));
            }
            push_hex_bytes(c, &mut buffer);
            k += 1;
        }
        proof {
            done = done + i;
        }
        tail = rest;
        assert(tail@ =~= data@.subrange(done, data@.len() as int));
        if tail.is_empty() {
            assert(data@.take(done) =~= data@);
            break;
        }
        assert(is_printable(tail@[0]));
        let i = find_non_ascii_simd(tail);
        let (ascii_piece, rest) = tail.split_at(i);
        let mut k: usize = 0;
        while k < ascii_piece.len()
            invariant
                k <= ascii_piece.len(),
                0 <= done,
                i == ascii_piece@.len(),
                done + i <= data@.len(),
                ascii_piece@ == data@.subrange(done, done + i),
                forall|j: int| 0 <= j < i ==> is_printable(#[trigger] ascii_piece@[j]),
                as_text(buffer@) == escaped(data@.take(done + k)),
            decreases ascii_piece.len() - k,
        {
            let c = ascii_piece[k];
            proof {
                assert(data@.take(done + k + 1).drop_last() =~= data@.take(done + k));
            }
            push_printable_bytes(c, &mut buffer);
            k += 1;
        }
        proof {
            done = done + i;
        }
        tail = rest;
        assert(tail@ =~= data@.subrange(done, data@.len() as int));
        assert(tail@.len() == 0 ==> data@.take(done) =~= data@);
    }
    let mut k: usize = 0;
    while k < buffer.len()
        invariant
            k <= buffer.len(),
            out@ == old(out)@ + as_text(buffer@.take(k as int)),
        decreases buffer.len() - k,
    {
        push_char(out, buffer[k] as char);
        assert(as_text(buffer@.take(k + 1)) =~= as_text(buffer@.take(k as int)).push(
            buffer@[k as int] as char,
        ));
        k += 1;
    }
    proof {
        assert(buffer@.take(k as int) =~= buffer@);
        lemma_escaped_len(data@);
    }
}

/// The text that stands for `data`, in a string of its own: printable ASCII
/// throughout, at most four times as long as `data`, and read back it gives
/// `data` again.
pub fn encode(data: &[u8]) -> (text: String)
    ensures
        text@ == escaped(data@),
        unescaped(text@) == data@,
        data@.len() <= text@.len() <= 4 * data@.len(),
        forall|i: int| 0 <= i < text@.len() ==> 0x20 <= (#[trigger] text@[i]) as int <= 0x7e,
{
    let mut text = String::new();
    to_ascii_or_hex_simd_v1(data, &mut text);
    proof {
        assert(text@ =~= escaped(data@));
        lemma_unescaped_inverts_escaped(data@);
        lemma_escaped_is_printable(data@);
    }
    text
}

} // verus!
