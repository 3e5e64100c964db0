//! A verified LEB128 (little-endian base-128) variable-length integer codec.
//!
//! Every fixed-width integer type implements [`LEB128Codec`]: `leb128_encode`
//! appends the canonical LEB128 bytes of a value to a buffer, and
//! `leb128_decode` reads one integer back from the front of a byte slice,
//! rejecting encodings whose value does not fit the destination width.

use vstd::prelude::*;

pub mod codec;
pub mod impls;
pub mod laws;
pub mod model;

use crate::model::{spec_decode, spec_encoding};

verus! {

/// High bit of an encoded byte: set on every byte except the last one of an integer.
pub const CONTINUATION: u8 = 0x80;

/// Why decoding failed.
#[derive(Clone, Copy, Debug, PartialEq, Eq, Structural)]
pub enum Leb128Error {
    /// The input ended before the final byte of the integer was seen.
    UnexpectedEnd,
    /// The encoded value cannot be represented losslessly in the destination type.
    Overflow,
}

/// A fixed-width integer type that can be written to and read from LEB128 bytes.
pub trait LEB128Codec: Sized {
    /// Bit width of the implementing type.
    spec fn width() -> nat;

    /// Whether the implementing type is two's-complement signed.
    spec fn signed() -> bool;

    /// The mathematical value of this integer.
    spec fn as_int(self) -> int;

    /// Append the LEB128 encoding of `self` to `out` and return the number of
    /// bytes written.
    fn leb128_encode(self, out: &mut Vec<u8>) -> (n: usize)
        ensures
            final(out)@ == old(out)@ + spec_encoding(Self::signed(), self.as_int()),
            n == spec_encoding(Self::signed(), self.as_int()).len(),
    ;

    /// Decode one LEB128 integer from the front of `bytes`, returning it
    /// together with the number of bytes consumed.
    fn leb128_decode(bytes: &[u8]) -> (r: Result<(Self, usize), Leb128Error>)
        ensures
            (match r {
                Ok(p) => spec_decode(Self::signed(), Self::width(), bytes@)
                    == Ok::<(int, nat), Leb128Error>((p.0.as_int(), p.1 as nat)),
                Err(e) => spec_decode(Self::signed(), Self::width(), bytes@)
                    == Err::<(int, nat), Leb128Error>(e),
            }),
    ;
}

} // verus!
