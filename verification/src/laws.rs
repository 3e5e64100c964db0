//! The codec's laws, proved once over the model: round trips, rejection of
//! out-of-range values, canonical minimality, and determinism.

use vstd::prelude::*;
use vstd::arithmetic::power2::{pow2, lemma_pow2_adds, lemma2_to64};
use vstd::arithmetic::div_mod::lemma_fundamental_div_mod;
use vstd::arithmetic::mul::lemma_mul_inequality;
use crate::model::{
    uleb_bytes, sleb_bytes, spec_encoding, spec_decode, prefix_val, sprefix_val, payload, is_last,
    sval_of, boundary, last_byte_ok, first_terminal, lemma_first_terminal_from_at,
    lemma_first_terminal_from_props, lemma_prefix_val_bound, lemma_sprefix_val_bound,
    lemma_sprefix_val_split, lemma_uleb_shape, lemma_uleb_val, lemma_uleb_minimal,
    lemma_sleb_shape, lemma_sleb_val, lemma_sleb_minimal, lemma_pow2_le,
};
use crate::Leb128Error;

verus! {

/// Round trip and overflow rejection, unsigned: decoding the canonical
/// encoding of `v`, with anything at all appended, for a `w`-bit destination
/// yields `v` and consumes exactly the encoding when `v` fits in `w` bits,
/// and fails with the overflow classification when it does not.
pub proof fn lemma_unsigned_round_trip(v: nat, w: nat, tail: Seq<u8>)
    requires
        1 <= w <= 128,
    ensures
        v < pow2(w) ==> spec_decode(false, w, uleb_bytes(v) + tail) == Ok::<
            (int, nat),
            Leb128Error,
        >((v as int, uleb_bytes(v).len() as nat)),
        v >= pow2(w) ==> spec_decode(false, w, uleb_bytes(v) + tail) == Err::<
            (int, nat),
            Leb128Error,
        >(Leb128Error::Overflow),
{
    let e = uleb_bytes(v);
    let s = e + tail;
    let n = e.len();
    lemma_uleb_shape(v);
    lemma_uleb_val(v, tail);
    assert forall|m: int| 0 <= m < n - 1 implies !is_last(s[m]) by {
        assert(s[m] == e[m]);
    }
    assert(s[n - 1] == e[n - 1]);
    lemma_first_terminal_from_at(s, 0, (n - 1) as nat);
    let bnd = boundary(w);
    lemma_fundamental_div_mod(w as int, 7);
    lemma_pow2_adds(w % 7, 7 * (w / 7));
    let p = pow2(7 * (w / 7)) as int;
    assert(prefix_val(s, n) == prefix_val(s, (n - 1) as nat) + payload(s[n - 1]) * pow2(
        7 * (n - 1) as nat,
    ));
    lemma_prefix_val_bound(s, (n - 1) as nat);
    if v < pow2(w) {
        if n > 1 && 7 * (n - 1) >= w {
            lemma_pow2_le(w, 7 * (n - 1) as nat);
            assert(false);
        }
        assert(n - 1 <= bnd);
        if n - 1 == bnd {
            let b = s[n - 1];
            if payload(b) >= pow2(w % 7) {
                lemma_mul_inequality(pow2(w % 7) as int, payload(b) as int, p);
                assert(false);
            }
            assert(last_byte_ok(false, w, b));
        }
    } else {
        if n - 1 < bnd {
            lemma_pow2_le(7 * n, w);
            assert(false);
        }
        if n - 1 == bnd {
            let b = s[n - 1];
            let lowv = prefix_val(s, (n - 1) as nat) as int;
            if payload(b) < pow2(w % 7) {
                assert(lowv + payload(b) * p < pow2(w % 7) as int * p) by (nonlinear_arith)
                    requires
                        0 <= lowv < p,
                        payload(b) <= pow2(w % 7) as int - 1,
                        1 <= p,
                ;
                assert(false);
            }
            assert(!last_byte_ok(false, w, b));
        }
    }
}

/// Round trip and overflow rejection, signed: decoding the canonical
/// encoding of `v`, with anything at all appended, for a `w`-bit destination
/// yields `v` and consumes exactly the encoding when `v` fits, two's
/// complement, in `w` bits, and fails with the overflow classification when
/// it does not.
pub proof fn lemma_signed_round_trip(v: int, w: nat, tail: Seq<u8>)
    requires
        1 <= w <= 128,
        w % 7 != 0,
    ensures
        (-pow2((w - 1) as nat) <= v < pow2((w - 1) as nat)) ==> spec_decode(
            true,
            w,
            sleb_bytes(v) + tail,
        ) == Ok::<(int, nat), Leb128Error>((v, sleb_bytes(v).len() as nat)),
        !(-pow2((w - 1) as nat) <= v < pow2((w - 1) as nat)) ==> spec_decode(
            true,
            w,
            sleb_bytes(v) + tail,
        ) == Err::<(int, nat), Leb128Error>(Leb128Error::Overflow),
{
    let e = sleb_bytes(v);
    let s = e + tail;
    let n = e.len();
    lemma_sleb_shape(v);
    lemma_sleb_val(v, tail);
    assert forall|m: int| 0 <= m < n - 1 implies !is_last(s[m]) by {
        assert(s[m] == e[m]);
    }
    assert(s[n - 1] == e[n - 1]);
    lemma_first_terminal_from_at(s, 0, (n - 1) as nat);
    let bnd = boundary(w);
    lemma2_to64();
    lemma_fundamental_div_mod(w as int, 7);
    lemma_pow2_adds((w % 7 - 1) as nat, 7 * (w / 7));
    lemma_pow2_le((w % 7 - 1) as nat, 5);
    let p = pow2(7 * (w / 7)) as int;
    let x = pow2((w % 7 - 1) as nat) as int;
    lemma_sprefix_val_split(s, n);
    lemma_prefix_val_bound(s, (n - 1) as nat);
    lemma_sprefix_val_bound(s, n);
    let b = s[n - 1];
    let lowv = prefix_val(s, (n - 1) as nat) as int;
    let sv = sval_of(b);
    if -pow2((w - 1) as nat) <= v < pow2((w - 1) as nat) {
        if n > 1 && 7 * (n - 1) - 1 > w - 1 {
            lemma_pow2_le((w - 1) as nat, (7 * (n - 1) - 1) as nat);
            assert(false);
        }
        assert(n - 1 <= bnd);
        if n - 1 == bnd {
            if sv >= x {
                assert(lowv + sv * p >= x * p) by (nonlinear_arith)
                    requires
                        0 <= lowv,
                        sv >= x,
                        1 <= p,
                ;
                assert(false);
            }
            if sv < -x {
                assert(lowv + sv * p < -(x * p)) by (nonlinear_arith)
                    requires
                        0 <= lowv < p,
                        sv <= -x - 1,
                        1 <= p,
                ;
                assert(false);
            }
            assert(last_byte_ok(true, w, b));
        }
    } else {
        if n - 1 < bnd {
            lemma_pow2_le((7 * n - 1) as nat, (w - 1) as nat);
            assert(false);
        }
        if n - 1 == bnd {
            if last_byte_ok(true, w, b) {
                assert(-x <= sv < x);
                assert(-(x * p) <= lowv + sv * p && lowv + sv * p < x * p) by (nonlinear_arith)
                    requires
                        0 <= lowv < p,
                        -x <= sv < x,
                        1 <= p,
                ;
                assert(false);
            }
        }
    }
}

/// Canonical minimality: whatever byte sequence the decoder accepts for a
/// value, the canonical encoding of that value is no longer.
pub proof fn lemma_encoding_minimal(signed: bool, w: nat, s: Seq<u8>, v: int, n: nat)
    requires
        1 <= w <= 128,
        signed ==> w % 7 != 0,
        spec_decode(signed, w, s) == Ok::<(int, nat), Leb128Error>((v, n)),
    ensures
        spec_encoding(signed, v).len() <= n,
{
    lemma_first_terminal_from_props(s, 0);
    match first_terminal(s) {
        Some(i) => {
            assert(n == i + 1);
            if signed {
                lemma_sprefix_val_bound(s, n);
                lemma_sleb_minimal(v, n);
            } else {
                lemma_prefix_val_bound(s, n);
                lemma_uleb_minimal(v as nat, n);
            }
        },
        None => {
            assert(false);
        },
    }
}

/// Determinism: the encoding is a function of the value alone, so two
/// encodings of the same value are byte-identical.
pub proof fn lemma_encode_deterministic(signed: bool, v: int, b1: Seq<u8>, b2: Seq<u8>)
    requires
        b1 == spec_encoding(signed, v),
        b2 == spec_encoding(signed, v),
    ensures
        b1 == b2,
{
}

} // verus!

