use leb128_codec::{LEB128Codec, Leb128Error, CONTINUATION};

fn encode_bytes<N: LEB128Codec>(num: N) -> Vec<u8> {
    let mut buf: Vec<u8> = Vec::new();
    num.leb128_encode(&mut buf);
    buf
}

#[test]
fn empty_input_is_unexpected_end() {
    let buf: Vec<u8> = Vec::new();
    assert_eq!(u8::leb128_decode(&buf).unwrap_err(), Leb128Error::UnexpectedEnd);
    assert_eq!(i64::leb128_decode(&buf).unwrap_err(), Leb128Error::UnexpectedEnd);
}

#[test]
fn truncated_input_is_unexpected_end() {
    let buf: Vec<u8> = vec![0x80];
    assert_eq!(u32::leb128_decode(&buf).unwrap_err(), Leb128Error::UnexpectedEnd);
    let buf: Vec<u8> = vec![0xFF, 0xFF];
    assert_eq!(i32::leb128_decode(&buf).unwrap_err(), Leb128Error::UnexpectedEnd);
}

#[test]
fn trailing_bytes_are_left_unread() {
    let buf: Vec<u8> = vec![0x05, 0xFF, 0x12];
    assert_eq!(u8::leb128_decode(&buf).unwrap(), (5u8, 1));
    assert_eq!(i16::leb128_decode(&buf).unwrap(), (5i16, 1));
}

#[test]
fn non_canonical_zero_is_accepted() {
    let buf: Vec<u8> = vec![0x80, 0x00];
    assert_eq!(u8::leb128_decode(&buf).unwrap(), (0u8, 2));
    // the canonical form of the value just decoded is shorter
    assert_eq!(encode_bytes(0u8), vec![0x00]);
}

#[test]
fn continuation_past_the_boundary_overflows() {
    // a u8 can take payload from at most two bytes; a set continuation bit on
    // the second byte can only announce bits the type cannot hold
    let buf: Vec<u8> = vec![0x80, 0x81, 0x00];
    assert_eq!(u8::leb128_decode(&buf).unwrap_err(), Leb128Error::Overflow);
    let buf: Vec<u8> = vec![0x80, 0x80, 0x00];
    assert_eq!(u8::leb128_decode(&buf).unwrap_err(), Leb128Error::Overflow);
}

#[test]
fn continuation_bit_marks_every_byte_but_the_last() {
    let buf = encode_bytes(0x29442u64);
    for (pos, byte) in buf.iter().enumerate() {
        if pos == buf.len() - 1 {
            assert_eq!(byte & CONTINUATION, 0);
        } else {
            assert_eq!(byte & CONTINUATION, CONTINUATION);
        }
    }
}

#[test]
fn narrowing_at_the_range_edge() {
    // 255 fits a u8, 256 and 300 do not
    let buf = encode_bytes(255u16);
    assert_eq!(u8::leb128_decode(&buf).unwrap().0, 255u8);
    let buf = encode_bytes(256u16);
    assert_eq!(u8::leb128_decode(&buf).unwrap_err(), Leb128Error::Overflow);
    let buf = encode_bytes(300u16);
    assert_eq!(u8::leb128_decode(&buf).unwrap_err(), Leb128Error::Overflow);
}

#[test]
fn narrowing_at_the_signed_range_edge() {
    let buf = encode_bytes(127i16);
    assert_eq!(i8::leb128_decode(&buf).unwrap().0, 127i8);
    let buf = encode_bytes(-128i16);
    assert_eq!(i8::leb128_decode(&buf).unwrap().0, -128i8);
    let buf = encode_bytes(128i16);
    assert_eq!(i8::leb128_decode(&buf).unwrap_err(), Leb128Error::Overflow);
    let buf = encode_bytes(-129i16);
    assert_eq!(i8::leb128_decode(&buf).unwrap_err(), Leb128Error::Overflow);
}

#[test]
fn signed_single_byte_forms() {
    assert_eq!(encode_bytes(0i8), vec![0x00]);
    assert_eq!(encode_bytes(63i8), vec![0x3F]);
    assert_eq!(encode_bytes(-1i8), vec![0x7F]);
    assert_eq!(encode_bytes(-64i8), vec![0x40]);
    // one step beyond the single-byte window needs a second byte
    assert_eq!(encode_bytes(64i16), vec![0xC0, 0x00]);
    assert_eq!(encode_bytes(-65i16), vec![0xBF, 0x7F]);
}

#[test]
fn widest_types_round_trip() {
    for value in [0u128, 1, u128::MAX - 1, u128::MAX] {
        let buf = encode_bytes(value);
        assert_eq!(u128::leb128_decode(&buf).unwrap(), (value, buf.len()));
    }
    for value in [i128::MIN, i128::MIN + 1, -1i128, 0, 1, i128::MAX - 1, i128::MAX] {
        let buf = encode_bytes(value);
        assert_eq!(i128::leb128_decode(&buf).unwrap(), (value, buf.len()));
    }
}

#[test]
fn widest_types_exact_bytes() {
    let mut expected: Vec<u8> = vec![0xFF; 18];
    expected.push(0x03);
    assert_eq!(encode_bytes(u128::MAX), expected);

    let mut expected: Vec<u8> = vec![0x80; 18];
    expected.push(0x7E);
    assert_eq!(encode_bytes(i128::MIN), expected);

    let mut expected: Vec<u8> = vec![0xFF; 18];
    expected.push(0x01);
    assert_eq!(encode_bytes(i128::MAX), expected);
}

#[test]
fn boundary_byte_of_the_widest_types() {
    // nineteen bytes can carry 128 bits and not one more
    let mut buf: Vec<u8> = vec![0xFF; 18];
    buf.push(0x04);
    assert_eq!(u128::leb128_decode(&buf).unwrap_err(), Leb128Error::Overflow);
    buf[18] = 0x02;
    assert_eq!(i128::leb128_decode(&buf).unwrap_err(), Leb128Error::Overflow);
    let buf: Vec<u8> = vec![0x80; 19];
    assert_eq!(u128::leb128_decode(&buf).unwrap_err(), Leb128Error::Overflow);
    assert_eq!(i128::leb128_decode(&buf).unwrap_err(), Leb128Error::Overflow);
}

#[test]
fn encode_is_deterministic() {
    let first = encode_bytes(0x1234_5678_9ABCu64);
    let second = encode_bytes(0x1234_5678_9ABCu64);
    assert_eq!(first, second);
    let first = encode_bytes(-0x1234_5678i64);
    let second = encode_bytes(-0x1234_5678i64);
    assert_eq!(first, second);
}

#[test]
fn encode_appends_and_reports_length() {
    let mut buf: Vec<u8> = vec![0xAA, 0xBB];
    let written = 0x29442u64.leb128_encode(&mut buf);
    assert_eq!(written, 3);
    assert_eq!(buf, vec![0xAA, 0xBB, 0xC2, 0xA8, 0x0A]);
}
