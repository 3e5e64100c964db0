//! [`LEB128Codec`] implementations for every fixed-width integer type: each
//! one dispatches to the width-parameterized core codec and narrows the
//! result.

use vstd::prelude::*;
use vstd::arithmetic::power2::lemma2_to64;
use crate::codec::{decode_signed, decode_unsigned, encode_signed, encode_unsigned};
use crate::model::lemma_pow2_128_values;
use crate::{LEB128Codec, Leb128Error};

verus! {

impl LEB128Codec for u8 {
    open spec fn width() -> nat {
        8
    }

    open spec fn signed() -> bool {
        false
    }

    open spec fn as_int(self) -> int {
        self as int
    }

    fn leb128_encode(self, out: &mut Vec<u8>) -> (n: usize) {
        encode_unsigned(self as u128, out)
    }

    fn leb128_decode(bytes: &[u8]) -> (r: Result<(Self, usize), Leb128Error>) {
        proof {
            lemma2_to64();
        }
        match decode_unsigned(bytes, 8) {
            Ok(p) => Ok((p.0 as u8, p.1)),
            Err(e) => Err(e),
        }
    }
}

impl LEB128Codec for u16 {
    open spec fn width() -> nat {
        16
    }

    open spec fn signed() -> bool {
        false
    }

    open spec fn as_int(self) -> int {
        self as int
    }

    fn leb128_encode(self, out: &mut Vec<u8>) -> (n: usize) {
        encode_unsigned(self as u128, out)
    }

    fn leb128_decode(bytes: &[u8]) -> (r: Result<(Self, usize), Leb128Error>) {
        proof {
            lemma2_to64();
        }
        match decode_unsigned(bytes, 16) {
            Ok(p) => Ok((p.0 as u16, p.1)),
            Err(e) => Err(e),
        }
    }
}

impl LEB128Codec for u32 {
    open spec fn width() -> nat {
        32
    }

    open spec fn signed() -> bool {
        false
    }

    open spec fn as_int(self) -> int {
        self as int
    }

    fn leb128_encode(self, out: &mut Vec<u8>) -> (n: usize) {
        encode_unsigned(self as u128, out)
    }

    fn leb128_decode(bytes: &[u8]) -> (r: Result<(Self, usize), Leb128Error>) {
        proof {
            lemma2_to64();
        }
        match decode_unsigned(bytes, 32) {
            Ok(p) => Ok((p.0 as u32, p.1)),
            Err(e) => Err(e),
        }
    }
}

impl LEB128Codec for u64 {
    open spec fn width() -> nat {
        64
    }

    open spec fn signed() -> bool {
        false
    }

    open spec fn as_int(self) -> int {
        self as int
    }

    fn leb128_encode(self, out: &mut Vec<u8>) -> (n: usize) {
        encode_unsigned(self as u128, out)
    }

    fn leb128_decode(bytes: &[u8]) -> (r: Result<(Self, usize), Leb128Error>) {
        proof {
            lemma2_to64();
        }
        match decode_unsigned(bytes, 64) {
            Ok(p) => Ok((p.0 as u64, p.1)),
            Err(e) => Err(e),
        }
    }
}

impl LEB128Codec for u128 {
    open spec fn width() -> nat {
        128
    }

    open spec fn signed() -> bool {
        false
    }

    open spec fn as_int(self) -> int {
        self as int
    }

    fn leb128_encode(self, out: &mut Vec<u8>) -> (n: usize) {
        encode_unsigned(self, out)
    }

    fn leb128_decode(bytes: &[u8]) -> (r: Result<(Self, usize), Leb128Error>) {
        decode_unsigned(bytes, 128)
    }
}

impl LEB128Codec for i8 {
    open spec fn width() -> nat {
        8
    }

    open spec fn signed() -> bool {
        true
    }

    open spec fn as_int(self) -> int {
        self as int
    }

    fn leb128_encode(self, out: &mut Vec<u8>) -> (n: usize) {
        encode_signed(self as i128, out)
    }

    fn leb128_decode(bytes: &[u8]) -> (r: Result<(Self, usize), Leb128Error>) {
        proof {
            lemma2_to64();
        }
        match decode_signed(bytes, 8) {
            Ok(p) => Ok((p.0 as i8, p.1)),
            Err(e) => Err(e),
        }
    }
}

impl LEB128Codec for i16 {
    open spec fn width() -> nat {
        16
    }

    open spec fn signed() -> bool {
        true
    }

    open spec fn as_int(self) -> int {
        self as int
    }

    fn leb128_encode(self, out: &mut Vec<u8>) -> (n: usize) {
        encode_signed(self as i128, out)
    }

    fn leb128_decode(bytes: &[u8]) -> (r: Result<(Self, usize), Leb128Error>) {
        proof {
            lemma2_to64();
        }
        match decode_signed(bytes, 16) {
            Ok(p) => Ok((p.0 as i16, p.1)),
            Err(e) => Err(e),
        }
    }
}

impl LEB128Codec for i32 {
    open spec fn width() -> nat {
        32
    }

    open spec fn signed() -> bool {
        true
    }

    open spec fn as_int(self) -> int {
        self as int
    }

    fn leb128_encode(self, out: &mut Vec<u8>) -> (n: usize) {
        encode_signed(self as i128, out)
    }

    fn leb128_decode(bytes: &[u8]) -> (r: Result<(Self, usize), Leb128Error>) {
        proof {
            lemma2_to64();
        }
        match decode_signed(bytes, 32) {
            Ok(p) => Ok((p.0 as i32, p.1)),
            Err(e) => Err(e),
        }
    }
}

impl LEB128Codec for i64 {
    open spec fn width() -> nat {
        64
    }

    open spec fn signed() -> bool {
        true
    }

    open spec fn as_int(self) -> int {
        self as int
    }

    fn leb128_encode(self, out: &mut Vec<u8>) -> (n: usize) {
        encode_signed(self as i128, out)
    }

    fn leb128_decode(bytes: &[u8]) -> (r: Result<(Self, usize), Leb128Error>) {
        proof {
            vstd::arithmetic::power2::lemma2_to64_rest();
        }
        match decode_signed(bytes, 64) {
            Ok(p) => Ok((p.0 as i64, p.1)),
            Err(e) => Err(e),
        }
    }
}

impl LEB128Codec for i128 {
    open spec fn width() -> nat {
        128
    }

    open spec fn signed() -> bool {
        true
    }

    open spec fn as_int(self) -> int {
        self as int
    }

    fn leb128_encode(self, out: &mut Vec<u8>) -> (n: usize) {
        encode_signed(self, out)
    }

    fn leb128_decode(bytes: &[u8]) -> (r: Result<(Self, usize), Leb128Error>) {
        proof {
            lemma_pow2_128_values();
        }
        decode_signed(bytes, 128)
    }
}

} // verus!
