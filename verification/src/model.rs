//! The mathematical model of the wire format: what the canonical encoding of
//! an integer is, and what value and length a decoder yields on arbitrary
//! bytes.

use vstd::prelude::*;
use vstd::arithmetic::power2::{pow2, lemma_pow2_adds, lemma_pow2_pos, lemma2_to64, lemma2_to64_rest};
use vstd::arithmetic::div_mod::{lemma_fundamental_div_mod, lemma_mod_bound};
use vstd::arithmetic::mul::lemma_mul_inequality;
use crate::Leb128Error;

verus! {

/// The 7 payload bits of an encoded byte.
pub open spec fn payload(b: u8) -> nat {
    (b % 128) as nat
}

/// Whether an encoded byte is the last byte of its integer (continuation bit clear).
pub open spec fn is_last(b: u8) -> bool {
    b < 128
}

/// Whether the 7-bit payload of a last byte makes the decoded value negative.
pub open spec fn sign_bit(b: u8) -> bool {
    b % 128 >= 64
}

/// The canonical unsigned LEB128 encoding of `v`: 7 bits per byte, least
/// significant group first, continuation bit on all but the last byte.
pub open spec fn uleb_bytes(v: nat) -> Seq<u8>
    decreases v,
{
    if v < 128 {
        seq![v as u8]
    } else {
        seq![(v % 128 + 128) as u8] + uleb_bytes(v / 128)
    }
}

/// The canonical signed LEB128 encoding of `v`: as the unsigned form, but the
/// sequence ends once the remaining bits are just the sign extension of bit 6
/// of the byte most recently emitted.
pub open spec fn sleb_bytes(v: int) -> Seq<u8>
    decreases (if v < 0 { -v } else { v }) via sleb_bytes_decreases
{
    if -64 <= v < 64 {
        seq![(v % 128) as u8]
    } else {
        seq![(v % 128 + 128) as u8] + sleb_bytes(v / 128)
    }
}

#[via_fn]
proof fn sleb_bytes_decreases(v: int) {
    if !(-64 <= v < 64) {
        lemma_fundamental_div_mod(v, 128);
        lemma_mod_bound(v, 128);
    }
}

/// The canonical encoding for a type of the given signedness.
pub open spec fn spec_encoding(signed: bool, v: int) -> Seq<u8> {
    if signed {
        sleb_bytes(v)
    } else {
        uleb_bytes(v as nat)
    }
}

/// The unsigned value carried by the payloads of the first `n` bytes of `s`,
/// each 7-bit group weighted by 128 to the power of its position.
pub open spec fn prefix_val(s: Seq<u8>, n: nat) -> nat
    decreases n,
{
    if n == 0 || n > s.len() {
        0
    } else {
        prefix_val(s, (n - 1) as nat) + payload(s[n - 1]) * pow2(7 * (n - 1) as nat)
    }
}

/// The signed value carried by the first `n` bytes of `s`: the unsigned value,
/// sign-extended from bit 6 of byte `n - 1`.
pub open spec fn sprefix_val(s: Seq<u8>, n: nat) -> int {
    if 1 <= n <= s.len() && sign_bit(s[n - 1]) {
        prefix_val(s, n) - pow2(7 * n)
    } else {
        prefix_val(s, n) as int
    }
}

/// The index of the first byte of `s` at or after `i` with a clear
/// continuation bit.
pub open spec fn first_terminal_from(s: Seq<u8>, i: nat) -> Option<nat>
    decreases s.len() - i,
{
    if i >= s.len() {
        None
    } else if is_last(s[i as int]) {
        Some(i)
    } else {
        first_terminal_from(s, i + 1)
    }
}

/// The index of the first byte of `s` with a clear continuation bit.
pub open spec fn first_terminal(s: Seq<u8>) -> Option<nat> {
    first_terminal_from(s, 0)
}

/// The index of the last byte that may still contribute payload bits to a
/// `w`-bit destination.
pub open spec fn boundary(w: nat) -> nat {
    w / 7
}

/// Whether a last byte `b`, read at the boundary index, fits the `w`-bit
/// destination: its payload bits beyond the destination width must be zero
/// for an unsigned type, and copies of the value's sign bit for a signed one.
pub open spec fn last_byte_ok(signed: bool, w: nat, b: u8) -> bool {
    if signed {
        b < pow2((w % 7 - 1) as nat) || (128 - pow2((w % 7 - 1) as nat) <= b && b < 128)
    } else {
        b < pow2(w % 7)
    }
}

/// What decoding one LEB128 integer for a `w`-bit destination from `s`
/// yields: the value and the number of bytes consumed, or the error.
pub open spec fn spec_decode(signed: bool, w: nat, s: Seq<u8>) -> Result<(int, nat), Leb128Error> {
    match first_terminal(s) {
        Some(i) => {
            if i < boundary(w) || (i == boundary(w) && last_byte_ok(signed, w, s[i as int])) {
                Ok(
                    (
                        if signed {
                            sprefix_val(s, i + 1)
                        } else {
                            prefix_val(s, i + 1) as int
                        },
                        i + 1,
                    ),
                )
            } else {
                Err(Leb128Error::Overflow)
            }
        },
        None => {
            if boundary(w) < s.len() {
                Err(Leb128Error::Overflow)
            } else {
                Err(Leb128Error::UnexpectedEnd)
            }
        },
    }
}

/// Numeric values of the powers of two near the widest supported type.
pub proof fn lemma_pow2_128_values()
    ensures
        pow2(7) == 128,
        pow2(121) == 0x2000000000000000000000000000000,
        pow2(126) == 0x40000000000000000000000000000000,
        pow2(127) == 0x80000000000000000000000000000000,
        pow2(128) == 0x100000000000000000000000000000000,
{
    lemma2_to64();
    lemma2_to64_rest();
    lemma_pow2_adds(57, 64);
    lemma_pow2_adds(62, 64);
    lemma_pow2_adds(63, 64);
    lemma_pow2_adds(64, 64);
}

/// Powers of two are monotonic.
pub proof fn lemma_pow2_le(e1: nat, e2: nat)
    requires
        e1 <= e2,
    ensures
        pow2(e1) <= pow2(e2),
{
    if e1 < e2 {
        vstd::arithmetic::power2::lemma_pow2_strictly_increases(e1, e2);
    }
}

/// `first_terminal_from(s, k)` finds the first byte at or after `k` with a
/// clear continuation bit, or reports that there is none.
pub proof fn lemma_first_terminal_from_props(s: Seq<u8>, k: nat)
    requires
        k <= s.len(),
    ensures
        (match first_terminal_from(s, k) {
            Some(j) => k <= j < s.len() && is_last(s[j as int]) && (forall|m: int|
                k <= m < j ==> !is_last(s[m])),
            None => forall|m: int| k <= m < s.len() ==> !is_last(s[m]),
        }),
    decreases s.len() - k,
{
    if k < s.len() && !is_last(s[k as int]) {
        lemma_first_terminal_from_props(s, k + 1);
    }
}

/// If every byte in `[k, j)` has its continuation bit set and byte `j` does
/// not, then `j` is the first terminal byte at or after `k`.
pub proof fn lemma_first_terminal_from_at(s: Seq<u8>, k: nat, j: nat)
    requires
        k <= j < s.len(),
        is_last(s[j as int]),
        forall|m: int| k <= m < j ==> !is_last(s[m]),
    ensures
        first_terminal_from(s, k) == Some(j),
    decreases j - k,
{
    if k < j {
        lemma_first_terminal_from_at(s, k + 1, j);
    }
}

/// `n` payload groups can carry at most `7 * n` bits.
pub proof fn lemma_prefix_val_bound(s: Seq<u8>, n: nat)
    requires
        n <= s.len(),
    ensures
        prefix_val(s, n) < pow2(7 * n),
    decreases n,
{
    lemma2_to64();
    if n > 0 {
        let m = (n - 1) as nat;
        lemma_prefix_val_bound(s, m);
        lemma_mul_inequality(payload(s[n - 1]) as int, 127, pow2(7 * m) as int);
        lemma_pow2_adds(7, 7 * m);
    }
}

/// The sign-extended value of `n` payload groups lies within `7 * n - 1` bits.
pub proof fn lemma_sprefix_val_bound(s: Seq<u8>, n: nat)
    requires
        1 <= n <= s.len(),
    ensures
        -pow2((7 * n - 1) as nat) <= sprefix_val(s, n) < pow2((7 * n - 1) as nat),
{
    let m = (n - 1) as nat;
    lemma2_to64();
    lemma_prefix_val_bound(s, m);
    lemma_pow2_adds(6, 7 * m);
    lemma_pow2_adds(7, 7 * m);
    assert(6 + 7 * m == 7 * n - 1);
    if sign_bit(s[n - 1]) {
        lemma_mul_inequality(64, payload(s[n - 1]) as int, pow2(7 * m) as int);
        lemma_mul_inequality(payload(s[n - 1]) as int, 127, pow2(7 * m) as int);
        lemma_pow2_pos((7 * n - 1) as nat);
    } else {
        lemma_mul_inequality(payload(s[n - 1]) as int, 63, pow2(7 * m) as int);
    }
}

/// Prepending one byte shifts the value of a prefix up by one 7-bit group.
pub proof fn lemma_prefix_val_cons(c: u8, u: Seq<u8>, m: nat)
    requires
        m <= u.len(),
    ensures
        prefix_val(seq![c] + u, m + 1) == payload(c) + 128 * prefix_val(u, m),
    decreases m,
{
    let s = seq![c] + u;
    lemma2_to64();
    if m == 0 {
        assert(s[0] == c);
        assert(prefix_val(s, 1) == prefix_val(s, 0) + payload(s[0]) * pow2(0));
        assert(payload(c) * 1 == payload(c));
    } else {
        let k = (m - 1) as nat;
        lemma_prefix_val_cons(c, u, k);
        assert(s[m as int] == u[m - 1]);
        lemma_pow2_adds(7, 7 * k);
        assert(payload(u[m - 1]) * pow2(7 * m) == 128 * (payload(u[m - 1]) * pow2(7 * k)))
            by (nonlinear_arith)
            requires pow2(7 * m) == 128 * pow2(7 * k),
        ;
    }
}

/// As `lemma_prefix_val_cons`, for the sign-extended value.
pub proof fn lemma_sprefix_val_cons(c: u8, u: Seq<u8>, m: nat)
    requires
        1 <= m <= u.len(),
    ensures
        sprefix_val(seq![c] + u, m + 1) == payload(c) + 128 * sprefix_val(u, m),
{
    let s = seq![c] + u;
    lemma_prefix_val_cons(c, u, m);
    assert(s[m as int] == u[m - 1]);
    lemma_pow2_adds(7, 7 * m);
    lemma2_to64();
}

/// The signed value of a last byte's payload: its 7 bits read as a
/// two's-complement group.
pub open spec fn sval_of(b: u8) -> int {
    if sign_bit(b) {
        (b % 128) - 128
    } else {
        (b % 128) as int
    }
}

/// The sign-extended value of a prefix splits into its low groups plus its
/// signed top group.
pub proof fn lemma_sprefix_val_split(s: Seq<u8>, n: nat)
    requires
        1 <= n <= s.len(),
    ensures
        sprefix_val(s, n) == prefix_val(s, (n - 1) as nat) + sval_of(s[n - 1]) * pow2(
            7 * (n - 1) as nat,
        ),
{
    lemma_pow2_adds(7, 7 * (n - 1) as nat);
    lemma2_to64();
    let p = pow2(7 * (n - 1) as nat) as int;
    assert(prefix_val(s, n) == prefix_val(s, (n - 1) as nat) + payload(s[n - 1]) * pow2(
        7 * (n - 1) as nat,
    ));
    if sign_bit(s[n - 1]) {
        assert((payload(s[n - 1]) - 128) * p == payload(s[n - 1]) * p - 128 * p)
            by (nonlinear_arith);
    }
}

/// Shape of the canonical unsigned encoding: at least one byte, the
/// continuation bit set on all but the last, and a length that brackets the
/// magnitude of the value.
pub proof fn lemma_uleb_shape(v: nat)
    ensures
        ({
            let s = uleb_bytes(v);
            &&& s.len() >= 1
            &&& is_last(s[s.len() - 1])
            &&& (forall|j: int| 0 <= j < s.len() - 1 ==> !is_last(s[j]))
            &&& v < pow2(7 * s.len())
            &&& (s.len() > 1 ==> v >= pow2(7 * (s.len() - 1) as nat))
        }),
    decreases v,
{
    lemma2_to64();
    if v < 128 {
    } else {
        lemma_uleb_shape(v / 128);
        lemma_fundamental_div_mod(v as int, 128);
        let c = (v % 128 + 128) as u8;
        let u = uleb_bytes(v / 128);
        let s = uleb_bytes(v);
        assert(s == seq![c] + u);
        assert(s[s.len() - 1] == u[u.len() - 1]);
        assert forall|j: int| 0 <= j < s.len() - 1 implies !is_last(s[j]) by {
            if j >= 1 {
                assert(s[j] == u[j - 1]);
            }
        }
        lemma_pow2_adds(7, 7 * u.len());
        lemma_pow2_adds(7, 7 * (u.len() - 1) as nat);
        if u.len() > 1 {
            assert(v >= 128 * (v / 128));
            lemma_mul_inequality(
                pow2(7 * (u.len() - 1) as nat) as int,
                (v / 128) as int,
                128,
            );
        }
    }
}

/// The decoded value of the canonical unsigned encoding, followed by
/// anything, is the encoded value.
pub proof fn lemma_uleb_val(v: nat, t: Seq<u8>)
    ensures
        prefix_val(uleb_bytes(v) + t, uleb_bytes(v).len()) == v,
    decreases v,
{
    lemma2_to64();
    if v < 128 {
        let s = uleb_bytes(v) + t;
        assert(s[0] == v as u8);
        assert(prefix_val(s, 1) == prefix_val(s, 0) + payload(s[0]) * pow2(0));
        assert(payload(s[0]) * 1 == payload(s[0]));
    } else {
        lemma_uleb_val(v / 128, t);
        let c = (v % 128 + 128) as u8;
        let u = uleb_bytes(v / 128) + t;
        let m = uleb_bytes(v / 128).len();
        assert(uleb_bytes(v) + t =~= seq![c] + u);
        lemma_prefix_val_cons(c, u, m);
        lemma_fundamental_div_mod(v as int, 128);
        assert(uleb_bytes(v).len() == m + 1);
        assert(payload(c) == v % 128);
        assert(prefix_val(u, m) == v / 128);
    }
}

/// Shape of the canonical signed encoding: at least one byte, the
/// continuation bit set on all but the last, and a length that brackets the
/// magnitude of the value.
pub proof fn lemma_sleb_shape(v: int)
    ensures
        ({
            let s = sleb_bytes(v);
            &&& s.len() >= 1
            &&& is_last(s[s.len() - 1])
            &&& (forall|j: int| 0 <= j < s.len() - 1 ==> !is_last(s[j]))
            &&& -pow2((7 * s.len() - 1) as nat) <= v < pow2((7 * s.len() - 1) as nat)
            &&& (s.len() > 1 ==> !(-pow2((7 * (s.len() - 1) - 1) as nat) <= v < pow2(
                (7 * (s.len() - 1) - 1) as nat,
            )))
        }),
    decreases (if v < 0 { -v } else { v }),
{
    lemma2_to64();
    if -64 <= v < 64 {
    } else {
        lemma_fundamental_div_mod(v, 128);
        lemma_mod_bound(v, 128);
        lemma_sleb_shape(v / 128);
        let c = (v % 128 + 128) as u8;
        let u = sleb_bytes(v / 128);
        let s = sleb_bytes(v);
        assert(s == seq![c] + u);
        assert(s[s.len() - 1] == u[u.len() - 1]);
        assert forall|j: int| 0 <= j < s.len() - 1 implies !is_last(s[j]) by {
            if j >= 1 {
                assert(s[j] == u[j - 1]);
            }
        }
        lemma_pow2_adds(7, (7 * u.len() - 1) as nat);
        let x = pow2((7 * u.len() - 1) as nat) as int;
        assert(-x <= v / 128 < x);
        assert(v < 128 * x && v >= -(128 * x)) by {
            assert(v == 128 * (v / 128) + v % 128);
            lemma_mul_inequality(v / 128, x - 1, 128);
            lemma_mul_inequality(-x, v / 128, 128);
        }
        if u.len() > 1 {
            lemma_pow2_adds(7, (7 * (u.len() - 1) - 1) as nat);
            let y = pow2((7 * (u.len() - 1) - 1) as nat) as int;
            assert(!(-y <= v / 128 < y));
            if v / 128 >= y {
                lemma_mul_inequality(y, v / 128, 128);
            } else {
                lemma_mul_inequality(v / 128, -y - 1, 128);
            }
        }
    }
}

/// The decoded value of the canonical signed encoding, followed by anything,
/// is the encoded value.
pub proof fn lemma_sleb_val(v: int, t: Seq<u8>)
    ensures
        sprefix_val(sleb_bytes(v) + t, sleb_bytes(v).len()) == v,
    decreases (if v < 0 { -v } else { v }),
{
    lemma2_to64();
    lemma_fundamental_div_mod(v, 128);
    lemma_mod_bound(v, 128);
    if -64 <= v < 64 {
        let s = sleb_bytes(v) + t;
        assert(s[0] == (v % 128) as u8);
        assert(prefix_val(s, 1) == prefix_val(s, 0) + payload(s[0]) * pow2(0));
        assert(payload(s[0]) * 1 == payload(s[0]));
        if v >= 0 {
            assert(!sign_bit(s[0]));
        } else {
            assert(v % 128 == v + 128);
            assert(sign_bit(s[0]));
        }
    } else {
        lemma_sleb_val(v / 128, t);
        lemma_sleb_shape(v / 128);
        let c = (v % 128 + 128) as u8;
        let u = sleb_bytes(v / 128) + t;
        let m = sleb_bytes(v / 128).len();
        assert(sleb_bytes(v) + t =~= seq![c] + u);
        lemma_sprefix_val_cons(c, u, m);
        assert(sleb_bytes(v).len() == m + 1);
        assert(payload(c) == v % 128);
        assert(sprefix_val(u, m) == v / 128);
    }
}

/// A value that fits in `n` payload groups has a canonical unsigned encoding
/// of at most `n` bytes.
pub proof fn lemma_uleb_minimal(v: nat, n: nat)
    requires
        n >= 1,
        v < pow2(7 * n),
    ensures
        uleb_bytes(v).len() <= n,
    decreases n,
{
    lemma2_to64();
    if v >= 128 {
        lemma_fundamental_div_mod(v as int, 128);
        lemma_pow2_adds(7, 7 * (n - 1) as nat);
        lemma_uleb_minimal(v / 128, (n - 1) as nat);
    }
}

/// A value that fits, signed, in `n` payload groups has a canonical signed
/// encoding of at most `n` bytes.
pub proof fn lemma_sleb_minimal(v: int, n: nat)
    requires
        n >= 1,
        -pow2((7 * n - 1) as nat) <= v < pow2((7 * n - 1) as nat),
    ensures
        sleb_bytes(v).len() <= n,
    decreases n,
{
    lemma2_to64();
    if !(-64 <= v < 64) {
        lemma_fundamental_div_mod(v, 128);
        lemma_mod_bound(v, 128);
        lemma_pow2_adds(7, (7 * (n - 1) - 1) as nat);
        lemma_sleb_minimal(v / 128, (n - 1) as nat);
    }
}

} // verus!
