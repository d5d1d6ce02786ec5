use simd_rs::{to_ascii_or_hex, to_ascii_or_hex_simd_v1, to_ascii_or_hex_simd_v2};

fn encode(data: &[u8]) -> String {
    let mut plain = String::new();
    to_ascii_or_hex(data, &mut plain);
    let mut v1 = String::new();
    to_ascii_or_hex_simd_v1(data, &mut v1);
    let mut v2 = String::new();
    to_ascii_or_hex_simd_v2(data, &mut v2);
    assert_eq!(v1, plain, "{data:?}");
    assert_eq!(v2, plain, "{data:?}");
    plain
}

fn hex_value(c: u8) -> u8 {
    match c {
        b'0'..=b'9' => c - b'0',
        b'a'..=b'f' => c - b'a' + 10,
        other => panic!("no hexadecimal digit: {other:#x}"),
    }
}

fn unescape(text: &str) -> Vec<u8> {
    let t = text.as_bytes();
    let mut out = Vec::new();
    let mut i = 0;
    while i < t.len() {
        if t[i] != b'\\' {
            out.push(t[i]);
            i += 1;
        } else if t[i + 1] == b'x' {
            out.push(hex_value(t[i + 2]) * 16 + hex_value(t[i + 3]));
            i += 4;
        } else {
            out.push(t[i + 1]);
            i += 2;
        }
    }
    out
}

fn sample(len: usize, seed: u64) -> Vec<u8> {
    let edges: [u8; 10] = [0x00, 0x1f, 0x20, 0x22, 0x5c, 0x7e, 0x7f, 0x80, 0xff, 0x78];
    let mut state = seed | 1;
    let mut out = Vec::with_capacity(len);
    for _ in 0..len {
        state ^= state << 13;
        state ^= state >> 7;
        state ^= state << 17;
        if state & 3 == 0 {
            out.push(edges[((state >> 8) % 10) as usize]);
        } else if state & 3 == 1 {
            out.push((state >> 16) as u8);
        } else {
            out.push(0x20 + ((state >> 16) % 0x5f) as u8);
        }
    }
    out
}

#[test]
fn encode_plain_text() {
    assert_eq!(encode(b"foo"), "foo");
}

#[test]
fn encode_leading_control_bytes() {
    assert_eq!(encode(&[0x01, 0x02, b'a']), "\\x01\\x02a");
}

#[test]
fn encode_double_quote() {
    assert_eq!(encode(b"\""), "\\\"");
}

#[test]
fn encode_backslash() {
    assert_eq!(encode(b"\\"), "\\\\");
}

#[test]
fn encode_keeps_the_space() {
    assert_eq!(encode(&[0x1e, 0x1f, b' ', b'a']), "\\x1e\\x1f a");
}

#[test]
fn encode_empty_buffer() {
    assert_eq!(encode(b""), "");
}

#[test]
fn encode_range_edges() {
    assert_eq!(encode(&[0x1f, 0x20, 0x7e, 0x7f]), "\\x1f ~\\x7f");
    assert_eq!(encode(&[0x00, 0x0a, 0x80, 0xab, 0xff]), "\\x00\\x0a\\x80\\xab\\xff");
    assert_eq!(encode(&[0x9f, 0xf9]), "\\x9f\\xf9");
}

#[test]
fn encode_appends_to_what_is_there() {
    let mut out = String::from("é: ");
    to_ascii_or_hex(b"a\x00", &mut out);
    assert_eq!(out, "é: a\\x00");
    to_ascii_or_hex_simd_v1(b"\"b\"", &mut out);
    assert_eq!(out, "é: a\\x00\\\"b\\\"");
    to_ascii_or_hex_simd_v2(b"\xffc", &mut out);
    assert_eq!(out, "é: a\\x00\\\"b\\\"\\xffc");
}

#[test]
fn encode_every_byte_value() {
    let all: Vec<u8> = (0u16..256).map(|v| v as u8).collect();
    let mut expected = String::new();
    for v in 0u16..256 {
        if v == 0x22 || v == 0x5c {
            expected.push('\\');
            expected.push(v as u8 as char);
        } else if (0x20..=0x7e).contains(&v) {
            expected.push(v as u8 as char);
        } else {
            expected.push_str(&format!("\\x{v:02x}"));
        }
    }
    assert_eq!(encode(&all), expected);
    assert_eq!(expected.len(), 161 * 4 + 93 + 2 * 2);
}

#[test]
fn encode_long_runs() {
    let mut data = vec![b'a'; 100];
    data.extend(vec![0u8; 70]);
    data.extend(vec![b'"'; 33]);
    let expected = format!("{}{}{}", "a".repeat(100), "\\x00".repeat(70), "\\\"".repeat(33));
    assert_eq!(encode(&data), expected);
}

#[test]
fn unescaping_gives_the_buffer_back() {
    assert_eq!(unescape(&encode(b"\\x41")), b"\\x41");
    assert_eq!(unescape(&encode(b"\\\\x\"")), b"\\\\x\"");
    for seed in 1..60u64 {
        for len in [0usize, 1, 2, 31, 32, 33, 64, 65, 150] {
            let data = sample(len, seed * 104_729);
            assert_eq!(unescape(&encode(&data)), data);
        }
    }
}

#[test]
fn text_is_at_most_four_times_as_long() {
    for seed in 1..60u64 {
        for len in [0usize, 1, 31, 32, 33, 64, 65, 150] {
            let data = sample(len, seed * 31);
            let text = encode(&data);
            assert!(text.len() <= 4 * data.len());
            assert!(text.len() >= data.len());
            assert!(text.bytes().all(|c| (0x20..=0x7e).contains(&c)));
        }
    }
    assert_eq!(encode(&[0u8; 50]).len(), 200);
}

#[test]
fn encode_returns_the_text() {
    assert_eq!(simd_rs::encode(b"foo"), "foo");
    assert_eq!(simd_rs::encode(&[0x01, 0x02, b'a']), "\\x01\\x02a");
    assert_eq!(simd_rs::encode(b"\""), "\\\"");
    assert_eq!(simd_rs::encode(b"\\"), "\\\\");
    assert_eq!(simd_rs::encode(&[0x1e, 0x1f, b' ', b'a']), "\\x1e\\x1f a");
    assert_eq!(simd_rs::encode(b""), "");
}
