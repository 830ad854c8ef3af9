//! Lua numbers held as integers.
//!
//! A Lua number is either an `i64` or a binary64 floating-point value; the
//! latter is held by its IEEE-754 bit pattern (`f64::to_bits`). This module
//! states, over integers, what the serializer needs to know of such values:
//! whether a float is integral and which integer it is, what an `i64` becomes
//! when it is converted to the nearest binary64 value, and the bit pattern of
//! a large integer converted to binary64.

use vstd::arithmetic::div_mod::{lemma_div_denominator, lemma_fundamental_div_mod};
use vstd::arithmetic::power2::{
    lemma2_to64,
    lemma2_to64_rest,
    lemma_pow2_adds,
    lemma_pow2_pos,
    lemma_pow2_strictly_increases,
    lemma_pow2_unfold,
    pow2,
};
use vstd::prelude::*;

verus! {

/// `v` saturated to the range of `i64` (what `as i64` does to an integral float).
pub open spec fn clamp_i64(v: int) -> i64 {
    if v > i64::MAX {
        i64::MAX
    } else if v < i64::MIN {
        i64::MIN
    } else {
        v as i64
    }
}

/// The biased exponent field of a binary64 bit pattern.
pub open spec fn float_exponent(bits: u64) -> u64 {
    (bits >> 52u64) & 0x7ff
}

/// The fraction field of a binary64 bit pattern.
pub open spec fn float_fraction(bits: u64) -> u64 {
    bits & 0xf_ffff_ffff_ffff
}

/// The sign bit of a binary64 bit pattern.
pub open spec fn float_negative(bits: u64) -> bool {
    (bits >> 63u64) == 1
}

/// The magnitude of a binary64 value when it is a finite integer (zero included).
pub open spec fn float_integral_magnitude(bits: u64) -> Option<int> {
    let e = float_exponent(bits) as int;
    let m = float_fraction(bits) as int;
    let sig = m + pow2(52);
    if e == 2047 {
        None
    } else if e == 0 {
        if m == 0 {
            Some(0)
        } else {
            None
        }
    } else if e >= 1075 {
        Some(sig * pow2((e - 1075) as nat))
    } else if sig % (pow2((1075 - e) as nat) as int) == 0 {
        Some(sig / (pow2((1075 - e) as nat) as int))
    } else {
        None
    }
}

/// The value of a binary64 bit pattern when it is a finite integer (so that
/// its `fract()` is zero), `None` for every other pattern (fractions,
/// infinities, NaN).
pub open spec fn float_integral_value(bits: u64) -> Option<int> {
    match float_integral_magnitude(bits) {
        Some(x) => Some(
            if float_negative(bits) {
                -x
            } else {
                x
            },
        ),
        None => None,
    }
}

/// How many low bits of `a` do not fit in a 53-bit significand.
pub open spec fn sig_shift(a: nat) -> nat
    decreases a,
{
    if a < 0x20_0000_0000_0000 {
        0
    } else {
        1 + sig_shift(a / 2)
    }
}

/// The binary64 value nearest to the natural number `a` (ties to even),
/// as an integer.
pub open spec fn round_to_double(a: nat) -> nat {
    if a < 0x20_0000_0000_0000 {
        a
    } else {
        let p = pow2(sig_shift(a));
        let q = a / p;
        let r = a % p;
        let h = p / 2;
        (if r > h || (r == h && q % 2 == 1) {
            q + 1
        } else {
            q
        }) * p
    }
}

/// The integer value of `i as f64`.
pub open spec fn i64_double_value(i: i64) -> int {
    if i < 0 {
        -(round_to_double((-i) as nat) as int)
    } else {
        round_to_double(i as nat) as int
    }
}

/// The bit pattern of the binary64 value nearest to `a`, for `a` of at least
/// 2^53 (so that a significand of 53 bits cannot hold it exactly).
pub open spec fn large_integer_double_bits(a: nat) -> u64 {
    let s = sig_shift(a);
    let p = pow2(s);
    let q = a / p;
    let r = a % p;
    let h = p / 2;
    let q2 = if r > h || (r == h && q % 2 == 1) {
        q + 1
    } else {
        q
    };
    if q2 == 0x20_0000_0000_0000 {
        ((1023 + s + 53) * 0x10_0000_0000_0000) as u64
    } else {
        ((1023 + s + 52) * 0x10_0000_0000_0000 + (q2 - 0x10_0000_0000_0000)) as u64
    }
}

proof fn lemma_sig_shift_bound(a: nat)
    ensures
        a / pow2(sig_shift(a)) < 0x20_0000_0000_0000,
        a >= 0x20_0000_0000_0000 ==> a / pow2(sig_shift(a)) >= 0x10_0000_0000_0000,
        pow2(sig_shift(a)) > 0,
    decreases a,
{
    lemma_pow2_pos(sig_shift(a));
    if a < 0x20_0000_0000_0000 {
        lemma2_to64();
    } else {
        let s = sig_shift(a / 2);
        lemma_sig_shift_bound(a / 2);
        lemma_pow2_unfold(s + 1);
        lemma_pow2_pos(s);
        lemma_div_denominator(a as int, 2, pow2(s) as int);
        if a / 2 < 0x20_0000_0000_0000 {
            lemma2_to64();
        }
    }
}

/// Splits `a` (at least 2^53) into its top 53 bits `q` and the dropped low
/// bits: returns `(q, p, s)` with `s == sig_shift(a)`, `p == 2^s` and `q == a / p`.
fn split_significand(a: u64) -> (res: (u64, u64, u64))
    requires
        a >= 0x20_0000_0000_0000,
    ensures
        res.2 == sig_shift(a as nat),
        res.2 < 64,
        res.1 == pow2(sig_shift(a as nat)),
        res.0 == a as nat / pow2(sig_shift(a as nat)),
        res.1 as nat * res.0 as nat <= a,
        1 <= res.1 <= a,
        res.0 < 0x20_0000_0000_0000,
        res.0 >= 0x10_0000_0000_0000,
{
    let mut t: u64 = a;
    let mut p: u64 = 1;
    let mut s: u64 = 0;
    proof {
        lemma2_to64();
    }
    while t >= 0x20_0000_0000_0000
        invariant
            s < 64,
            p == pow2(s as nat),
            p >= 1,
            t as nat == a as nat / (p as nat),
            sig_shift(a as nat) == s + sig_shift(t as nat),
            p as nat * t as nat <= a,
        decreases t,
    {
        proof {
            lemma_div_denominator(a as int, p as int, 2);
            lemma_pow2_unfold(s as nat + 1);
            assert(2 * p <= p * t) by (nonlinear_arith)
                requires
                    t >= 2,
                    p >= 1,
            ;
            assert(p * 2 * (t / 2) <= p * t) by (nonlinear_arith)
                requires
                    t >= 0,
                    p >= 1,
            ;
        }
        t = t / 2;
        p = p * 2;
        s = s + 1;
        proof {
            if s >= 64 {
                lemma2_to64_rest();
                if s > 64 {
                    lemma_pow2_strictly_increases(64, s as nat);
                }
            }
        }
    }
    proof {
        lemma_sig_shift_bound(a as nat);
        assert(p <= p * t) by (nonlinear_arith)
            requires
                t >= 1,
                p >= 1,
        ;
    }
    (t, p, s)
}

/// Rounds `a` to the nearest binary64 value (ties to even).
pub fn round_u64_to_double(a: u64) -> (r: u128)
    ensures
        r == round_to_double(a as nat),
{
    if a < 0x20_0000_0000_0000 {
        return a as u128;
    }
    let (t, p, _s) = split_significand(a);
    proof {
        lemma_fundamental_div_mod(a as int, p as int);
        assert(a as int == p * (a as int / p as int) + a as int % p as int);
    }
    let rem = a - t * p;
    assert(rem == a as nat % p as nat);
    let h = p / 2;
    let q2: u64 = if rem > h || (rem == h && t % 2 == 1) {
        t + 1
    } else {
        t
    };
    assert((q2 as u128) * (p as u128) <= 0x20_0000_0000_0000 * 0x1_0000_0000_0000_0000u128)
        by (nonlinear_arith)
        requires
            q2 <= 0x20_0000_0000_0000,
            p <= 0xffff_ffff_ffff_ffff,
    ;
    (q2 as u128) * (p as u128)
}

/// The value of `i as f64` saturated back into `i64` (what `(i as f64) as i64` gives).
pub fn i64_through_double(i: i64) -> (r: i64)
    ensures
        r == clamp_i64(i64_double_value(i)),
{
    if i >= 0 {
        let r = round_u64_to_double(i as u64);
        if r > 0x7fff_ffff_ffff_ffff {
            i64::MAX
        } else {
            r as i64
        }
    } else {
        let a: u64 = if i == i64::MIN {
            0x8000_0000_0000_0000
        } else {
            (-i) as u64
        };
        let r = round_u64_to_double(a);
        if r >= 0x8000_0000_0000_0000 {
            i64::MIN
        } else {
            -(r as i64)
        }
    }
}

/// The bit pattern of `a as f64` for `a` of at least 2^53.
pub fn large_u64_to_double_bits(a: u64) -> (bits: u64)
    requires
        a >= 0x20_0000_0000_0000,
    ensures
        bits == large_integer_double_bits(a as nat),
{
    let (t, p, s) = split_significand(a);
    proof {
        lemma_fundamental_div_mod(a as int, p as int);
    }
    let rem = a - t * p;
    assert(rem == a as nat % p as nat);
    let h = p / 2;
    let q2: u64 = if rem > h || (rem == h && t % 2 == 1) {
        t + 1
    } else {
        t
    };
    if q2 == 0x20_0000_0000_0000 {
        (1023 + s + 53) * 0x10_0000_0000_0000
    } else {
        (1023 + s + 52) * 0x10_0000_0000_0000 + (q2 - 0x10_0000_0000_0000)
    }
}

/// The saturated integer value of a binary64 bit pattern that encodes a
/// finite integer (`Some(f as i64)` when `f.fract() == 0.0`), `None` otherwise.
pub fn float_integer_clamped(bits: u64) -> (r: Option<i64>)
    ensures
        r == (match float_integral_value(bits) {
            Some(v) => Some(clamp_i64(v)),
            None => None::<i64>,
        }),
{
    let e = (bits >> 52u64) & 0x7ff;
    let m = bits & 0xf_ffff_ffff_ffff;
    let neg = (bits >> 63u64) == 1;
    proof {
        lemma2_to64();
        lemma2_to64_rest();
    }
    assert(m < 0x10_0000_0000_0000) by (bit_vector)
        requires
            m == bits & 0xf_ffff_ffff_ffff,
    ;
    assert(e < 2048) by (bit_vector)
        requires
            e == (bits >> 52u64) & 0x7ff,
    ;
    if e == 2047 {
        return None;
    }
    if e == 0 {
        if m == 0 {
            return Some(0);
        } else {
            return None;
        }
    }
    let sig: u64 = m + 0x10_0000_0000_0000;
    let mag: u64;
    if e >= 1075 {
        let t = e - 1075;
        if t >= 11 {
            proof {
                lemma_pow2_adds(11, (t - 11) as nat);
                lemma_pow2_pos((t - 11) as nat);
                assert(sig * pow2(t as nat) >= 0x10_0000_0000_0000 * 2048) by (nonlinear_arith)
                    requires
                        sig >= 0x10_0000_0000_0000,
                        pow2(t as nat) == 2048 * pow2((t - 11) as nat),
                        pow2((t - 11) as nat) >= 1,
                ;
            }
            if neg {
                return Some(i64::MIN);
            } else {
                return Some(i64::MAX);
            }
        }
        let p: u64 = 1u64 << t;
        proof {
            vstd::bits::lemma_u64_shl_is_mul(1, t);
            lemma_pow2_strictly_increases(t as nat, 11);
        }
        assert(sig * p < 0x8000_0000_0000_0000) by (nonlinear_arith)
            requires
                sig < 0x20_0000_0000_0000,
                p <= 1024,
        ;
        mag = sig * p;
    } else {
        let k = 1075 - e;
        if k >= 53 {
            proof {
                if k > 53 {
                    lemma_pow2_strictly_increases(53, k as nat);
                }
                vstd::arithmetic::div_mod::lemma_small_mod(sig as nat, pow2(k as nat));
            }
            return None;
        }
        let p: u64 = 1u64 << k;
        proof {
            vstd::bits::lemma_u64_shl_is_mul(1, k);
        }
        if sig % p != 0 {
            return None;
        }
        mag = sig / p;
    }
    assert(float_integral_magnitude(bits) == Some(mag as int));
    if neg {
        Some(-(mag as i64))
    } else {
        Some(mag as i64)
    }
}

/// The integer value of a binary64 bit pattern that encodes an integer of
/// magnitude below 2^63, `None` otherwise.
pub fn float_integer_small(bits: u64) -> (r: Option<i64>)
    ensures
        r == (match float_integral_value(bits) {
            Some(v) => if -0x8000_0000_0000_0000 < v < 0x8000_0000_0000_0000 {
                Some(v as i64)
            } else {
                None::<i64>
            },
            None => None::<i64>,
        }),
{
    let e = (bits >> 52u64) & 0x7ff;
    let m = bits & 0xf_ffff_ffff_ffff;
    let neg = (bits >> 63u64) == 1;
    proof {
        lemma2_to64();
        lemma2_to64_rest();
    }
    assert(m < 0x10_0000_0000_0000) by (bit_vector)
        requires
            m == bits & 0xf_ffff_ffff_ffff,
    ;
    assert(e < 2048) by (bit_vector)
        requires
            e == (bits >> 52u64) & 0x7ff,
    ;
    if e == 2047 {
        return None;
    }
    if e == 0 {
        if m == 0 {
            return Some(0);
        } else {
            return None;
        }
    }
    let sig: u64 = m + 0x10_0000_0000_0000;
    let mag: u64;
    if e >= 1075 {
        let t = e - 1075;
        if t >= 11 {
            proof {
                lemma_pow2_adds(11, (t - 11) as nat);
                lemma_pow2_pos((t - 11) as nat);
                assert(sig * pow2(t as nat) >= 0x10_0000_0000_0000 * 2048) by (nonlinear_arith)
                    requires
                        sig >= 0x10_0000_0000_0000,
                        pow2(t as nat) == 2048 * pow2((t - 11) as nat),
                        pow2((t - 11) as nat) >= 1,
                ;
            }
            return None;
        }
        let p: u64 = 1u64 << t;
        proof {
            vstd::bits::lemma_u64_shl_is_mul(1, t);
            lemma_pow2_strictly_increases(t as nat, 11);
        }
        assert(sig * p < 0x8000_0000_0000_0000) by (nonlinear_arith)
            requires
                sig < 0x20_0000_0000_0000,
                p <= 1024,
        ;
        mag = sig * p;
    } else {
        let k = 1075 - e;
        if k >= 53 {
            proof {
                if k > 53 {
                    lemma_pow2_strictly_increases(53, k as nat);
                }
                vstd::arithmetic::div_mod::lemma_small_mod(sig as nat, pow2(k as nat));
            }
            return None;
        }
        let p: u64 = 1u64 << k;
        proof {
            vstd::bits::lemma_u64_shl_is_mul(1, k);
        }
        if sig % p != 0 {
            return None;
        }
        mag = sig / p;
    }
    assert(float_integral_magnitude(bits) == Some(mag as int));
    if neg {
        Some(-(mag as i64))
    } else {
        Some(mag as i64)
    }
}

} // verus!
