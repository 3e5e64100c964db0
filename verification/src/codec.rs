//! The executable codec: width-parameterized encode and decode routines on
//! which every integer type's trait implementation is built.

use vstd::prelude::*;
use vstd::arithmetic::power2::{pow2, lemma_pow2_adds, lemma2_to64};
use vstd::arithmetic::div_mod::{
    lemma_fundamental_div_mod, lemma_fundamental_div_mod_converse_div, lemma_mod_bound,
    lemma_mod_multiples_vanish,
};
use crate::model::{
    uleb_bytes, sleb_bytes, lemma_pow2_128_values, spec_decode, first_terminal,
    first_terminal_from, lemma_first_terminal_from_props, prefix_val, sprefix_val, payload,
    is_last, sign_bit, boundary, last_byte_ok, lemma_pow2_le,
};
use crate::Leb128Error;
use vstd::arithmetic::power2::lemma_pow2_strictly_increases;
use vstd::arithmetic::mul::lemma_mul_inequality;

verus! {

const POW2_121_U128: u128 = 0x2000000000000000000000000000000;

const POW2_127_U128: u128 = 0x80000000000000000000000000000000;

/// Append the canonical unsigned LEB128 encoding of `value` to `out`; returns
/// the number of bytes written.
pub fn encode_unsigned(value: u128, out: &mut Vec<u8>) -> (n: usize)
    ensures
        final(out)@ == old(out)@ + uleb_bytes(value as nat),
        n == uleb_bytes(value as nat).len(),
{
    let base_len = out.len();
    let ghost base = out@;
    let mut num: u128 = value;
    loop
        invariant_except_break
            out@.len() >= base_len,
            base_len == base.len(),
            out@.take(base_len as int) == base,
            uleb_bytes(value as nat) == out@.skip(base_len as int) + uleb_bytes(num as nat),
        ensures
            out@.len() >= base_len,
            out@.take(base_len as int) == base,
            out@.skip(base_len as int) == uleb_bytes(value as nat),
        decreases num,
    {
        let ghost pre = out@;
        if num < 128 {
            out.push(num as u8);
            proof {
                assert(uleb_bytes(num as nat) =~= seq![num as u8]);
                assert(out@.skip(base_len as int) =~= pre.skip(base_len as int) + seq![
                    num as u8,
                ]);
                assert(out@.take(base_len as int) =~= base);
            }
            break;
        } else {
            let b: u8 = (num % 128) as u8 + 128;
            out.push(b);
            proof {
                lemma_fundamental_div_mod(num as int, 128);
                assert(uleb_bytes(num as nat) == seq![b] + uleb_bytes((num / 128) as nat));
                assert(out@.skip(base_len as int) =~= pre.skip(base_len as int) + seq![b]);
                assert(out@.take(base_len as int) =~= base);
                assert(uleb_bytes(value as nat) =~= out@.skip(base_len as int) + uleb_bytes(
                    (num / 128) as nat,
                ));
            }
            num = num / 128;
        }
    }
    proof {
        assert(out@ =~= out@.take(base_len as int) + out@.skip(base_len as int));
    }
    out.len() - base_len
}

/// The 128-bit two's-complement bit pattern of `v`, as an unsigned integer.
fn to_twos(v: i128) -> (x: u128)
    ensures
        x as int == v as int + if v < 0 { pow2(128) as int } else { 0 },
{
    proof {
        lemma_pow2_128_values();
    }
    if v >= 0 {
        v as u128
    } else {
        u128::MAX - ((-(v + 1)) as u128)
    }
}

/// The signed value whose 128-bit two's-complement bit pattern is `x`.
fn from_twos(x: u128) -> (v: i128)
    ensures
        v as int == x as int - if x >= pow2(127) { pow2(128) as int } else { 0 },
{
    proof {
        lemma_pow2_128_values();
    }
    if x < POW2_127_U128 {
        x as i128
    } else {
        -((u128::MAX - x) as i128) - 1
    }
}

/// Append the canonical signed LEB128 encoding of `value` to `out`; returns
/// the number of bytes written.
pub fn encode_signed(value: i128, out: &mut Vec<u8>) -> (n: usize)
    ensures
        final(out)@ == old(out)@ + sleb_bytes(value as int),
        n == sleb_bytes(value as int).len(),
{
    let base_len = out.len();
    let ghost base = out@;
    let mut x: u128 = to_twos(value);
    let ghost mut g: int = value as int;
    proof {
        lemma_pow2_128_values();
    }
    loop
        invariant_except_break
            out@.len() >= base_len,
            base_len == base.len(),
            out@.take(base_len as int) == base,
            -pow2(127) <= g < pow2(127),
            x as int == g + if g < 0 { pow2(128) as int } else { 0 },
            sleb_bytes(value as int) == out@.skip(base_len as int) + sleb_bytes(g),
        ensures
            out@.len() >= base_len,
            out@.take(base_len as int) == base,
            out@.skip(base_len as int) == sleb_bytes(value as int),
        decreases (if g < 0 { -g } else { g }),
    {
        proof {
            lemma_pow2_128_values();
            lemma_fundamental_div_mod(g, 128);
            lemma_mod_bound(g, 128);
            lemma_pow2_adds(7, 121);
            lemma_mod_multiples_vanish(pow2(121) as int, g, 128);
        }
        let ghost pre = out@;
        let b: u8 = (x % 128) as u8;
        if x < 64 || x > u128::MAX - 64 {
            out.push(b);
            proof {
                assert(-64 <= g < 64);
                assert(sleb_bytes(g) =~= seq![b]);
                assert(out@.skip(base_len as int) =~= pre.skip(base_len as int) + seq![b]);
                assert(out@.take(base_len as int) =~= base);
            }
            break;
        } else {
            out.push(b + 128);
            proof {
                assert(!(-64 <= g < 64));
                assert(sleb_bytes(g) == seq![(b + 128) as u8] + sleb_bytes(g / 128));
                assert(out@.skip(base_len as int) =~= pre.skip(base_len as int) + seq![
                    (b + 128) as u8,
                ]);
                assert(out@.take(base_len as int) =~= base);
                assert(sleb_bytes(value as int) =~= out@.skip(base_len as int) + sleb_bytes(
                    g / 128,
                ));
            }
            let neg = x >= POW2_127_U128;
            proof {
                lemma_fundamental_div_mod(x as int, 128);
            }
            x = x / 128;
            if neg {
                proof {
                    lemma_fundamental_div_mod_converse_div(
                        g + pow2(128),
                        128,
                        g / 128 + pow2(121),
                        g % 128,
                    );
                }
                x = x + (u128::MAX - (POW2_121_U128 - 1));
            }
            proof {
                g = g / 128;
            }
        }
    }
    proof {
        assert(out@ =~= out@.take(base_len as int) + out@.skip(base_len as int));
    }
    out.len() - base_len
}

/// Decode one unsigned LEB128 integer of at most `width` bits from the front
/// of `bytes`; returns the value and the number of bytes consumed.
pub fn decode_unsigned(bytes: &[u8], width: u32) -> (r: Result<(u128, usize), Leb128Error>)
    requires
        1 <= width <= 128,
    ensures
        (match r {
            Ok(p) => spec_decode(false, width as nat, bytes@) == Ok::<(int, nat), Leb128Error>(
                (p.0 as int, p.1 as nat),
            ) && p.0 < pow2(width as nat),
            Err(e) => spec_decode(false, width as nat, bytes@) == Err::<(int, nat), Leb128Error>(
                e,
            ),
        }),
{
    let ghost s = bytes@;
    let ghost w = width as nat;
    let rem = width % 7;
    let max_last: u8 = if rem == 0 {
        0
    } else if rem == 1 {
        1
    } else if rem == 2 {
        3
    } else if rem == 3 {
        7
    } else if rem == 4 {
        15
    } else if rem == 5 {
        31
    } else {
        63
    };
    proof {
        lemma2_to64();
        assert(max_last as int == pow2(w % 7) - 1);
    }
    let bound_idx: usize = (width / 7) as usize;
    let mut i: usize = 0;
    let mut acc: u128 = 0;
    let mut mul: u128 = 1;
    loop
        invariant
            s == bytes@,
            1 <= width <= 128,
            w == width as nat,
            bound_idx == boundary(w),
            bound_idx <= 18,
            max_last as int == pow2(w % 7) - 1,
            i <= bound_idx,
            forall|j: int| 0 <= j < i ==> !is_last(s[j]),
            first_terminal(s) == first_terminal_from(s, i as nat),
            acc as nat == prefix_val(s, i as nat),
            mul as nat == pow2((7 * i) as nat),
            acc < mul,
        decreases s.len() - i,
    {
        if i >= bytes.len() {
            return Err(Leb128Error::UnexpectedEnd);
        }
        let b = bytes[i];
        proof {
            lemma2_to64();
            lemma_pow2_128_values();
            lemma_pow2_adds(7, (7 * i) as nat);
            lemma_fundamental_div_mod(w as int, 7);
            lemma_pow2_adds(w % 7, 7 * (w / 7));
            if w < 128 {
                lemma_pow2_strictly_increases(w, 128);
            }
            if 7 * (i + 1) < 126 {
                lemma_pow2_strictly_increases((7 * (i + 1)) as nat, 126);
            }
        }
        if i == bound_idx {
            if b <= max_last {
                proof {
                    assert(first_terminal_from(s, i as nat) == Some(i as nat));
                    assert(prefix_val(s, (i + 1) as nat) == acc as nat + payload(b) * pow2(
                        (7 * i) as nat,
                    ));
                    assert(7 * i == 7 * (w / 7));
                    assert((acc as int) + (b as int) * (mul as int) < pow2(w % 7) as int * pow2(
                        (7 * (w / 7)) as nat,
                    ) as int) by (nonlinear_arith)
                        requires
                            (acc as int) < (mul as int),
                            0 <= (b as int) <= pow2(w % 7) as int - 1,
                            (mul as int) == pow2((7 * (w / 7)) as nat) as int,
                    ;
                    assert(pow2(w % 7) * pow2((7 * (w / 7)) as nat) == pow2(w));
                }
                let v = acc + (b as u128) * mul;
                return Ok((v, i + 1));
            } else {
                proof {
                    if is_last(b) {
                        assert(first_terminal_from(s, i as nat) == Some(i as nat));
                        assert(!last_byte_ok(false, w, b));
                    } else {
                        assert(first_terminal_from(s, i as nat) == first_terminal_from(
                            s,
                            (i + 1) as nat,
                        ));
                        lemma_first_terminal_from_props(s, (i + 1) as nat);
                    }
                }
                return Err(Leb128Error::Overflow);
            }
        } else if b < 128 {
            proof {
                lemma_mul_inequality(b as int, 127, mul as int);
                assert(first_terminal_from(s, i as nat) == Some(i as nat));
                assert(prefix_val(s, (i + 1) as nat) == acc as nat + payload(b) * pow2(
                    (7 * i) as nat,
                ));
                if 7 * (i + 1) < w {
                    lemma_pow2_strictly_increases((7 * (i + 1)) as nat, w);
                }
            }
            let v = acc + (b as u128) * mul;
            return Ok((v, i + 1));
        } else {
            proof {
                lemma_mul_inequality((b - 128) as int, 127, mul as int);
                assert(first_terminal_from(s, i as nat) == first_terminal_from(
                    s,
                    (i + 1) as nat,
                ));
                assert(prefix_val(s, (i + 1) as nat) == acc as nat + payload(b) * pow2(
                    (7 * i) as nat,
                ));
                assert(payload(b) == (b - 128) as nat);
            }
            acc = acc + ((b - 128) as u128) * mul;
            i = i + 1;
            mul = mul * 128;
        }
    }
}

/// An accepted last byte `b` at index `i` closes a prefix whose sign-extended
/// value decomposes into the accumulated low part plus a signed top group,
/// and that value fits in `w` bits.
proof fn lemma_signed_terminal(s: Seq<u8>, w: nat, i: nat, acc: nat, b: u8)
    requires
        1 <= w <= 128,
        w % 7 != 0,
        i <= boundary(w),
        i < s.len(),
        s[i as int] == b,
        b < 128,
        acc == prefix_val(s, i),
        acc < pow2(7 * i),
        i == boundary(w) ==> b < pow2((w % 7 - 1) as nat) || 128 - pow2((w % 7 - 1) as nat) <= b,
    ensures
        sprefix_val(s, i + 1) == acc + (if b >= 64 {
            b - 128
        } else {
            b as int
        }) * pow2(7 * i),
        -pow2((w - 1) as nat) <= sprefix_val(s, i + 1) < pow2((w - 1) as nat),
{
    lemma2_to64();
    vstd::arithmetic::power2::lemma_pow2_pos(7 * i);
    let p = pow2(7 * i) as int;
    let sval: int = if b >= 64 {
        b - 128
    } else {
        b as int
    };
    assert(prefix_val(s, i + 1) == acc + payload(b) * pow2(7 * i));
    lemma_pow2_adds(7, 7 * i);
    if b >= 64 {
        assert(sign_bit(s[i as int]));
        assert((b - 128) * p == b * p - 128 * p) by (nonlinear_arith);
    } else {
        assert(!sign_bit(s[i as int]));
    }
    let m: int = if i == boundary(w) {
        pow2((w % 7 - 1) as nat) as int
    } else {
        64
    };
    assert(-m <= sval < m);
    lemma_fundamental_div_mod(w as int, 7);
    if i == boundary(w) {
        lemma_pow2_adds((w % 7 - 1) as nat, 7 * (w / 7));
        assert(m * p == pow2((w - 1) as nat));
    } else {
        lemma_pow2_adds(6, 7 * i);
        lemma_pow2_le((6 + 7 * i) as nat, (w - 1) as nat);
        assert(m * p == pow2((6 + 7 * i) as nat));
    }
    assert(acc + sval * p < m * p && -(m * p) <= acc + sval * p) by (nonlinear_arith)
        requires
            0 <= acc < p,
            -m <= sval < m,
            1 <= p,
    ;
}

/// Decode one signed LEB128 integer of at most `width` bits from the front of
/// `bytes`; returns the value and the number of bytes consumed.
pub fn decode_signed(bytes: &[u8], width: u32) -> (r: Result<(i128, usize), Leb128Error>)
    requires
        1 <= width <= 128,
        width % 7 != 0,
    ensures
        (match r {
            Ok(p) => spec_decode(true, width as nat, bytes@) == Ok::<(int, nat), Leb128Error>(
                (p.0 as int, p.1 as nat),
            ) && -pow2((width - 1) as nat) <= (p.0 as int) && (p.0 as int) < pow2(
                (width - 1) as nat,
            ),
            Err(e) => spec_decode(true, width as nat, bytes@) == Err::<(int, nat), Leb128Error>(
                e,
            ),
        }),
{
    let ghost s = bytes@;
    let ghost w = width as nat;
    let rem = width % 7;
    let lo: u8 = if rem == 1 {
        1
    } else if rem == 2 {
        2
    } else if rem == 3 {
        4
    } else if rem == 4 {
        8
    } else if rem == 5 {
        16
    } else {
        32
    };
    proof {
        lemma2_to64();
        assert(lo as nat == pow2((w % 7 - 1) as nat));
    }
    let bound_idx: usize = (width / 7) as usize;
    let mut i: usize = 0;
    let mut acc: u128 = 0;
    let mut mul: u128 = 1;
    loop
        invariant
            s == bytes@,
            1 <= width <= 128,
            width % 7 != 0,
            w == width as nat,
            bound_idx == boundary(w),
            bound_idx <= 18,
            lo as nat == pow2((w % 7 - 1) as nat),
            i <= bound_idx,
            forall|j: int| 0 <= j < i ==> !is_last(s[j]),
            first_terminal(s) == first_terminal_from(s, i as nat),
            acc as nat == prefix_val(s, i as nat),
            mul as nat == pow2((7 * i) as nat),
            acc < mul,
        decreases s.len() - i,
    {
        if i >= bytes.len() {
            return Err(Leb128Error::UnexpectedEnd);
        }
        let b = bytes[i];
        proof {
            lemma2_to64();
            lemma_pow2_128_values();
            lemma_pow2_adds(7, (7 * i) as nat);
            if i < 18 {
                lemma_pow2_le((7 * (i + 1)) as nat, 126);
            }
            lemma_pow2_le(w, 128);
            lemma_pow2_le((w - 1) as nat, 127);
        }
        let at_bound = i == bound_idx;
        let ok_here = if at_bound {
            b < lo || (128 - lo <= b && b < 128)
        } else {
            b < 128
        };
        if ok_here {
            proof {
                assert(first_terminal_from(s, i as nat) == Some(i as nat));
                lemma_signed_terminal(s, w, i as nat, acc as nat, b);
                if at_bound {
                    assert(last_byte_ok(true, w, b));
                }
            }
            let ghost sv = sprefix_val(s, (i + 1) as nat);
            let ghost p = mul as int;
            let ghost sval: int = if b >= 64 {
                b - 128
            } else {
                b as int
            };
            let pl: u8 = if i == 18 {
                b % 4
            } else {
                b
            };
            proof {
                assert(sv == acc + sval * p);
                if i == 18 {
                    assert(7 * i == 126);
                    assert(mul as int == pow2(126));
                    lemma_mul_inequality(pl as int, 3, mul as int);
                    lemma_pow2_adds(2, 126);
                } else {
                    lemma_mul_inequality(pl as int, 127, mul as int);
                }
                if b >= 64 {
                    lemma_mul_inequality(sval, -1, p);
                    assert((b - 128) * p == b * p - 128 * p) by (nonlinear_arith);
                    if i == 18 {
                        assert(b == 126 || b == 127);
                        assert(((b % 4) as int) * p == b * p - 124 * p) by (nonlinear_arith)
                            requires
                                126 <= b <= 127,
                        ;
                    }
                } else {
                    if i == 18 {
                        assert(b < 4);
                    }
                }
            }
            let acc2: u128 = acc + (pl as u128) * mul;
            let x: u128 = if b >= 64 {
                if i == 18 {
                    acc2
                } else {
                    acc2 + (u128::MAX - (mul * 128 - 1))
                }
            } else {
                acc2
            };
            proof {
                assert(x as int == sv + if sv < 0 {
                    pow2(128) as int
                } else {
                    0
                });
                assert(sv < 0 ==> x as int >= pow2(127));
                assert(sv >= 0 ==> (x as int) < pow2(127));
            }
            let v = from_twos(x);
            return Ok((v, i + 1));
        } else if at_bound {
            proof {
                if is_last(b) {
                    assert(first_terminal_from(s, i as nat) == Some(i as nat));
                    assert(!last_byte_ok(true, w, b));
                } else {
                    assert(first_terminal_from(s, i as nat) == first_terminal_from(
                        s,
                        (i + 1) as nat,
                    ));
                    lemma_first_terminal_from_props(s, (i + 1) as nat);
                }
            }
            return Err(Leb128Error::Overflow);
        } else {
            proof {
                lemma_mul_inequality((b - 128) as int, 127, mul as int);
                assert(first_terminal_from(s, i as nat) == first_terminal_from(
                    s,
                    (i + 1) as nat,
                ));
                assert(prefix_val(s, (i + 1) as nat) == acc as nat + payload(b) * pow2(
                    (7 * i) as nat,
                ));
                assert(payload(b) == (b - 128) as nat);
            }
            acc = acc + ((b - 128) as u128) * mul;
            i = i + 1;
            mul = mul * 128;
        }
    }
}

} // verus!
