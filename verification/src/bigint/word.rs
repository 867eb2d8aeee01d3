//! Single-word steps: shifts that carry bits between neighbouring limbs, and the 2-by-1 division by
//! an invariant divisor.
use super::limbs::{hi64, lo64, wide_mul};
use vstd::arithmetic::power2::{
    lemma2_to64, lemma2_to64_rest, lemma_pow2_pos, lemma_pow2_strictly_increases,
    lemma_pow2_unfold, pow2,
};
use vstd::bits::{lemma_u128_shr_is_div, lemma_u64_pow2_no_overflow};
use vstd::prelude::*;

verus! {

pub proof fn lemma_pow2_64()
    ensures
        pow2(64) == 0x1_0000_0000_0000_0000,
        pow2(63) == 0x8000_0000_0000_0000,
{
    lemma2_to64();
    lemma2_to64_rest();
    lemma_pow2_unfold(64);
}

/// Within a double word, shifting a single word left is multiplication by a power of two.
pub proof fn lemma_wide_shl(x: u64, s: u32)
    requires
        s < 64,
    ensures
        ((x as u128) << (s as u128)) == x * pow2(s as nat),
        x * pow2(s as nat) <= 0xffff_ffff_ffff_ffff * 0x8000_0000_0000_0000,
    decreases s,
{
    let w: u128 = x as u128;
    let t: u128 = s as u128;
    lemma_pow2_64();
    lemma_pow2_pos(s as nat);
    if s < 63 {
        lemma_pow2_strictly_increases(s as nat, 63);
    }
    let p = pow2(s as nat);
    assert(x * p <= 0xffff_ffff_ffff_ffff * 0x8000_0000_0000_0000) by (nonlinear_arith)
        requires
            x <= 0xffff_ffff_ffff_ffff,
            0 <= p <= 0x8000_0000_0000_0000,
    ;
    if s == 0 {
        assert(w << 0u128 == w) by (bit_vector);
        lemma2_to64();
        assert(x * 1 == x);
    } else {
        let t1: u128 = (t - 1) as u128;
        lemma_wide_shl(x, (s - 1) as u32);
        assert(w << t == (w << t1) * 2) by (bit_vector)
            requires
                w <= 0xffff_ffff_ffff_ffffu128,
                t1 < 63,
                t == t1 + 1,
        ;
        lemma_pow2_unfold(s as nat);
        let h = pow2((s - 1) as nat);
        assert(x * (2 * h) == (x * h) * 2) by (nonlinear_arith);
    }
}

/// `x * 2^s + carry` as a low word and the bits that left it.
pub(crate) fn shl_word(x: u64, s: u32, carry: u64) -> (r: (u64, u64))
    requires
        s < 64,
        carry < pow2(s as nat),
    ensures
        r.0 + 0x1_0000_0000_0000_0000 * r.1 == x * pow2(s as nat) + carry,
        r.1 < pow2(s as nat),
{
    proof {
        lemma_wide_shl(x, s);
        lemma_pow2_64();
        lemma_pow2_pos(s as nat);
        if s < 63 {
            lemma_pow2_strictly_increases(s as nat, 63);
        }
    }
    let w: u128 = ((x as u128) << (s as u128)) + carry as u128;
    let lo: u64 = lo64(w);
    let hi: u64 = hi64(w);
    proof {
        let p = pow2(s as nat) as int;
        assert(w < p * 0x1_0000_0000_0000_0000) by (nonlinear_arith)
            requires
                w == x * p + carry,
                carry < p,
                x <= 0xffff_ffff_ffff_ffff,
                p >= 1,
        ;
        assert(hi < p) by (nonlinear_arith)
            requires
                hi * 0x1_0000_0000_0000_0000 <= w,
                w < p * 0x1_0000_0000_0000_0000,
        ;
    }
    (lo, hi)
}

/// `(carry * 2^64 + x) / 2^s` as a word, with the bits shifted out.
pub(crate) fn shr_word(x: u64, s: u32, carry: u64) -> (r: (u64, u64))
    requires
        s < 64,
        carry < pow2(s as nat),
    ensures
        x + 0x1_0000_0000_0000_0000 * carry == r.0 * pow2(s as nat) + r.1,
        r.1 < pow2(s as nat),
{
    assert((carry as u128) << 64u128 == carry as u128 * 0x1_0000_0000_0000_0000u128)
        by (bit_vector);
    let w: u128 = ((carry as u128) << 64u128) + x as u128;
    let q: u128 = w >> (s as u128);
    proof {
        lemma_u128_shr_is_div(w, s as u128);
        lemma_pow2_pos(s as nat);
        let p = pow2(s as nat) as int;
        vstd::arithmetic::div_mod::lemma_fundamental_div_mod(w as int, p);
        vstd::arithmetic::div_mod::lemma_mod_bound(w as int, p);
        assert(w < p * 0x1_0000_0000_0000_0000) by (nonlinear_arith)
            requires
                w == carry * 0x1_0000_0000_0000_0000 + x,
                carry < p,
                x <= 0xffff_ffff_ffff_ffff,
        ;
        assert(q < 0x1_0000_0000_0000_0000) by (nonlinear_arith)
            requires
                p * q <= w,
                w < p * 0x1_0000_0000_0000_0000,
                p >= 1,
        ;
        lemma_wide_shl(q as u64, s);
        assert(p * q == q * p) by (nonlinear_arith);
        lemma_u64_pow2_no_overflow(s as nat);
    }
    let q64: u64 = q as u64;
    let rem: u64 = (w - ((q64 as u128) << (s as u128))) as u64;
    (q64, rem)
}

/// The bounds on the first remainder candidate of the 2-by-1 division step: with
/// `k = 2^128 - d (2^64 + v)` and `(2^64 + v) u1 + u0 = q1 2^64 + q0`, the candidate
/// `u1 2^64 + u0 - (q1 + 1) d` lies between `max(-d, q0 - 2^64 + 1)` and `max(2^64 - d, q0) - 1`.
proof fn lemma_div_2by1_candidate(u1: int, u0: int, d: int, v: int, k: int, q1: int, q0: int)
    requires
        0x8000_0000_0000_0000 <= d < 0x1_0000_0000_0000_0000,
        0 <= u1 < d,
        0 <= u0 < 0x1_0000_0000_0000_0000,
        0 <= v < 0x1_0000_0000_0000_0000,
        1 <= k <= d,
        d * (0x1_0000_0000_0000_0000 + v) + k == 0x1_0000_0000_0000_0000 * 0x1_0000_0000_0000_0000,
        0 <= q0 < 0x1_0000_0000_0000_0000,
        (0x1_0000_0000_0000_0000 + v) * u1 + u0 == q1 * 0x1_0000_0000_0000_0000 + q0,
    ensures
        0 <= q1 < 0x1_0000_0000_0000_0000,
        ({
            let rt = u1 * 0x1_0000_0000_0000_0000 + u0 - (q1 + 1) * d;
            &&& -d <= rt
            &&& q0 - 0x1_0000_0000_0000_0000 < rt
            &&& (rt < 0x1_0000_0000_0000_0000 - d || rt < q0)
        }),
{
    let b: int = 0x1_0000_0000_0000_0000;
    let w = b + v;
    let rt = u1 * b + u0 - (q1 + 1) * d;
    // q1 is one word
    assert(w * u1 <= w * (d - 1)) by (nonlinear_arith)
        requires
            u1 <= d - 1,
            w >= 0,
    ;
    assert(w * (d - 1) == d * w - w) by (nonlinear_arith);
    assert(w * u1 >= 0) by (nonlinear_arith)
        requires
            w >= 0,
            u1 >= 0,
    ;
    // b * rt == k * u1 + (b - d) * u0 + d * q0 - b * d
    let ku = k * u1;
    let du = d * u0;
    let dq = d * q0;
    let q1d = q1 * d;
    let x = d * (w * u1);
    assert(x + ku == (b * b) * u1) by (nonlinear_arith)
        requires
            x == d * (w * u1),
            ku == k * u1,
            d * w + k == b * b,
    ;
    assert(x + du == q1d * b + dq) by (nonlinear_arith)
        requires
            x == d * (w * u1),
            du == d * u0,
            dq == d * q0,
            q1d == q1 * d,
            w * u1 + u0 == q1 * b + q0,
    ;
    assert(b * rt == ku + b * u0 - du + dq - b * d) by {
        assert((q1 + 1) * d == q1d + d) by (nonlinear_arith)
            requires
                q1d == q1 * d,
        ;
        assert((b * b) * u1 == b * (u1 * b)) by (nonlinear_arith);
    }
    assert(ku >= 0) by (nonlinear_arith)
        requires
            ku == k * u1,
            k >= 0,
            u1 >= 0,
    ;
    // -d <= rt
    assert(dq >= 0) by (nonlinear_arith)
        requires
            dq == d * q0,
            d >= 0,
            q0 >= 0,
    ;
    assert(b * u0 - du >= 0) by (nonlinear_arith)
        requires
            du == d * u0,
            d <= b,
            u0 >= 0,
    ;
    assert(b * rt >= -(b * d));
    // q0 - b < rt
    assert(dq - b * d - b * q0 + b * b > 0) by (nonlinear_arith)
        requires
            dq == d * q0,
            d < b,
            q0 < b,
    ;
    // upper bound
    assert(ku <= d * (d - 1)) by (nonlinear_arith)
        requires
            ku == k * u1,
            0 <= k <= d,
            0 <= u1 <= d - 1,
    ;
    assert(b * u0 - du <= (b - d) * (b - 1)) by (nonlinear_arith)
        requires
            du == d * u0,
            d <= b,
            u0 <= b - 1,
    ;
    let m = if b - d >= q0 {
        b - d
    } else {
        q0
    };
    assert(d * (d - 1) + (b - d) * (b - 1) - b * d + dq <= b * m - b) by (nonlinear_arith)
        requires
            dq == d * q0,
            q0 <= m,
            b - d <= m,
            0 <= d <= b,
    ;
    assert(b * rt <= b * m - b);
}

/// Divide the double word `u1 * 2^64 + u0` by a divisor with its top bit set, given its reciprocal
/// `v = floor((2^128 - 1) / d) - 2^64`. A widening multiply and two conditional corrections replace
/// the double-word division (Moller and Granlund, "Improved division by invariant integers").
pub(crate) fn udiv_qrnnd_preinv(u1: u64, u0: u64, d: u64, v: u64) -> (r: (u64, u64))
    requires
        d >= 0x8000_0000_0000_0000,
        u1 < d,
        is_reciprocal(d, v),
    ensures
        r.0 * d + r.1 == u1 * 0x1_0000_0000_0000_0000 + u0,
        r.1 < d,
{
    let (p1, p0): (u64, u64) = wide_mul(v, u1);
    let s: u128 = p0 as u128 + u0 as u128;
    let q0: u64 = lo64(s);
    let carry: u64 = hi64(s);
    let ghost b: int = 0x1_0000_0000_0000_0000;
    let ghost q1m: int = p1 + u1 + carry;
    let ghost rt: int = u1 * b + u0 - (q1m + 1) * d;
    proof {
        let k = b * b - d * (b + v);
        assert((b + v) * u1 == b * u1 + v * u1) by (nonlinear_arith);
        lemma_div_2by1_candidate(
            u1 as int,
            u0 as int,
            d as int,
            v as int,
            k,
            q1m,
            q0 as int,
        );
    }
    let q1: u64 = p1.wrapping_add(u1).wrapping_add(carry);
    assert(q1 == q1m);
    let mut qhat: u64 = q1.wrapping_add(1);
    let prod: u64 = qhat.wrapping_mul(d);
    let mut r: u64 = u0.wrapping_sub(prod);
    proof {
        // the word r is the candidate remainder modulo 2^64
        let full = (q1m + 1) * d;
        let c1 = if q1m + 1 < b { full / b } else { d as int };
        if q1m + 1 < b {
            assert(qhat == q1m + 1);
            assert(qhat as nat * d as nat == full);
            assert(full >= 0) by (nonlinear_arith)
                requires
                    full == (q1m + 1) * d,
                    q1m >= 0,
            ;
            assert(prod == full % b);
        } else {
            assert(qhat == 0);
            assert(qhat as nat * d as nat == 0) by (nonlinear_arith)
                requires
                    qhat == 0,
            ;
            assert(prod == 0);
            assert(full == d * b) by (nonlinear_arith)
                requires
                    full == (q1m + 1) * d,
                    q1m + 1 == b,
            ;
        }
        assert(full == c1 * b + prod);
        assert(rt == u0 - prod + (u1 - c1) * b) by (nonlinear_arith)
            requires
                rt == u1 * b + u0 - full,
                full == c1 * b + prod,
        ;
        if rt >= 0 {
            assert(r == rt);
        } else {
            assert(r == rt + b);
        }
    }
    if r > q0 {
        qhat = qhat.wrapping_sub(1);
        r = r.wrapping_add(d);
        proof {
            if rt >= 0 {
                assert(r == rt + d);
            } else {
                assert(r == rt + d);
            }
            assert(qhat == q1m);
            assert(q1m * d + r == u1 * b + u0) by (nonlinear_arith)
                requires
                    rt == u1 * b + u0 - (q1m + 1) * d,
                    r == rt + d,
            ;
        }
    } else {
        proof {
            assert(rt >= 0);
            assert(q1m + 1 < b) by {
                if q1m + 1 >= b {
                    assert(rt == (u1 - d) * b + u0) by (nonlinear_arith)
                        requires
                            rt == u1 * b + u0 - (q1m + 1) * d,
                            q1m + 1 == b,
                    ;
                }
            }
            assert(qhat * d + r == u1 * b + u0);
        }
    }
    if r >= d {
        proof {
            assert(qhat + 1 < b) by {
                if qhat + 1 >= b {
                    assert(qhat == b - 1);
                    assert((b - 1) * d + r >= b * d) by (nonlinear_arith)
                        requires
                            r >= d,
                            d >= 0,
                    ;
                    assert(u1 * b + u0 < d * b) by (nonlinear_arith)
                        requires
                            u1 + 1 <= d,
                            u0 < b,
                            b > 0,
                    ;
                    assert(b * d == d * b) by (nonlinear_arith);
                }
            }
            assert((qhat + 1) * d == qhat * d + d) by (nonlinear_arith);
        }
        qhat = qhat + 1;
        r = r - d;
    }
    (qhat, r)
}

/// `v` is the 2-by-1 reciprocal of `d`: `2^64 + v = floor((2^128 - 1) / d)`.
pub open spec fn is_reciprocal(d: u64, v: u64) -> bool {
    &&& d * (0x1_0000_0000_0000_0000 + v) < 0x1_0000_0000_0000_0000 * 0x1_0000_0000_0000_0000
    &&& d * (0x1_0000_0000_0000_0000 + v) + d >= 0x1_0000_0000_0000_0000 * 0x1_0000_0000_0000_0000
}

/// The 2-by-1 reciprocal of a divisor whose top bit is set.
pub(crate) fn reciprocal_2by1(d: u64) -> (v: u64)
    requires
        d >= 0x8000_0000_0000_0000,
    ensures
        is_reciprocal(d, v),
{
    let big: u128 = u128::MAX / (d as u128);
    proof {
        let dd = d as int;
        let m = u128::MAX as int;
        vstd::arithmetic::div_mod::lemma_fundamental_div_mod(m, dd);
        vstd::arithmetic::div_mod::lemma_mod_bound(m, dd);
        assert(big >= 0x1_0000_0000_0000_0000) by (nonlinear_arith)
            requires
                dd * big + dd > m,
                m == 0xffff_ffff_ffff_ffff_ffff_ffff_ffff_ffff,
                0 < dd <= 0xffff_ffff_ffff_ffff,
                big >= 0,
        ;
        assert(big < 0x2_0000_0000_0000_0000) by (nonlinear_arith)
            requires
                dd * big <= m,
                m == 0xffff_ffff_ffff_ffff_ffff_ffff_ffff_ffff,
                dd >= 0x8000_0000_0000_0000,
        ;
    }
    (big - 0x1_0000_0000_0000_0000) as u64
}

} // verus!
