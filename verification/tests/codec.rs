use std::cmp::min;
use std::fmt::Debug;

use num_traits::PrimInt;

use leb128_codec::{LEB128Codec, Leb128Error};

fn trip<N: LEB128Codec + PrimInt + Debug, O: LEB128Codec + PrimInt + Debug>(
    num: N,
) -> Result<O, Leb128Error> {
    let mut buf: Vec<u8> = Vec::new();
    num.leb128_encode(&mut buf);
    O::leb128_decode(&buf).map(|(value, _consumed)| value)
}

fn assert_trip<N: LEB128Codec + PrimInt + Debug>(num: N) {
    assert_eq!(
        num,
        trip(num).unwrap_or_else(|e| panic!(
            "{:?} on {:?} of type u{:?}",
            e,
            num,
            N::zero().count_zeros()
        ))
    );
}

#[test]
fn unsigned_trips() {
    for x in 0..256 {
        assert_trip(x as u8);
    }
    for x in 0..65536 {
        assert_trip(x as u16);
        assert_trip(x as u32 * 65536);
        assert_trip(x as u64 * 65536 * 65536);
        assert_trip(x as u128 * 65536 * 65536 * 65536);
    }
}

#[test]
fn signed_trips() {
    for x in -128..128 {
        assert_trip(x as i8);
    }
    for x in -32768..32768 {
        assert_trip(x as i16);
        assert_trip(x as i32 * 65536);
        assert_trip(x as i64 * 65536 * 65536);
        assert_trip(x as i128 * 65536 * 65536 * 65536);
    }
}

fn assert_trip_overflow<
    Encode: LEB128Codec + PrimInt + Debug,
    Decode: LEB128Codec + PrimInt + Debug,
>(
    input: Encode,
) {
    assert!(trip::<Encode, Decode>(input).unwrap_err() == Leb128Error::Overflow)
}

fn test_overflow<Encode: LEB128Codec + PrimInt + Debug, Decode: LEB128Codec + PrimInt + Debug>(
    negative: bool,
) {
    let sign = if negative { -1 } else { 1 };
    let bit_size = Decode::zero().count_zeros();
    let first_overflow: i128 = 2.pow(bit_size) * sign;
    for x in 0..min(65536 * sign, first_overflow << 3) {
        assert_trip_overflow::<Encode, Decode>(Encode::from(first_overflow + x).unwrap());
    }
}

#[test]
fn unsigned_overflow() {
    test_overflow::<u16, u8>(false);
    test_overflow::<u32, u16>(false);
    test_overflow::<u64, u32>(false);
    test_overflow::<u128, u64>(false);
}

#[test]
fn signed_overflow() {
    test_overflow::<i16, i8>(false);
    test_overflow::<i32, i16>(false);
    test_overflow::<i64, i32>(false);
    test_overflow::<i128, i64>(false);

    test_overflow::<i16, i8>(true);
    test_overflow::<i32, i16>(true);
    test_overflow::<i64, i32>(true);
    test_overflow::<i128, i64>(true);
}

fn assert_trip_exact<N: LEB128Codec + PrimInt + Debug>(num: N, encoding: &[u8]) {
    let mut buf: Vec<u8> = Vec::new();
    let written = num.leb128_encode(&mut buf);
    assert_eq!(written, buf.len());
    assert_eq!(&buf[..], encoding);
    let (decoded, consumed) = N::leb128_decode(&buf).unwrap();
    assert_eq!(decoded, num);
    assert_eq!(consumed, encoding.len());
}

#[test]
fn test_unsigned_exact() {
    assert_trip_exact(0x81u8, &[0x81, 0x1]);
    assert_trip_exact(0x29442u64, &[0xC2, 0xA8, 0xA]);
}

#[test]
fn test_signed_exact() {
    assert_trip_exact(0x7Fi16, &[0xFF, 0x00]);
    assert_trip_exact(-0x53i32, &[0xAD, 0x7F]);
    assert_trip_exact(-0x8652i32, &[0xAE, 0xF3, 0x7D]);
}
