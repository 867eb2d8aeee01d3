//! Division of magnitudes: by a single limb, and Knuth's Algorithm D.
use super::addsub::{relate_mag, Relation};
use super::limbs::{
    add_carry, bpow, canonical, lemma_bpow_add, lemma_bpow_mono, lemma_bpow_pos,
    lemma_canonical_longer, lemma_canonical_lower, lemma_val_bound, lemma_val_push,
    lemma_val_single, lemma_val_skip, lemma_val_split, lemma_val_take, lemma_val_update,
    lemma_val_zeros, limbs_val, strip, sub_borrow,
};
use super::mul::push_zeros;
use super::shift::{lemma_leading_zeros, shl_limbs, shr_limbs};
use super::word::{
    is_reciprocal, lemma_pow2_64, reciprocal_2by1, shl_word, shr_word, udiv_qrnnd_preinv,
};
use vstd::arithmetic::power2::{lemma_pow2_adds, lemma_pow2_pos, pow2};
use vstd::prelude::*;
use vstd::slice::slice_to_vec;

verus! {

/// Limbs above a small value are zero.
pub proof fn lemma_high_limbs_zero(s: Seq<u64>, n: nat)
    requires
        limbs_val(s) < bpow(n),
        n <= s.len(),
    ensures
        forall|k: int| n <= k < s.len() ==> s[k] == 0,
    decreases s.len(),
{
    if s.len() > n {
        let top = s.last();
        lemma_val_push(s.drop_last(), top);
        assert(s =~= s.drop_last().push(top));
        lemma_bpow_mono(n, (s.len() - 1) as nat);
        let p = bpow((s.len() - 1) as nat);
        if top != 0 {
            assert(p * top >= p) by (nonlinear_arith)
                requires
                    top >= 1,
                    p >= 0,
            ;
        }
        assert(p * 0 == 0) by (nonlinear_arith);
        lemma_high_limbs_zero(s.drop_last(), n);
        assert forall|k: int| n <= k < s.len() implies s[k] == 0 by {
            if k < s.len() - 1 {
                assert(s[k] == s.drop_last()[k]);
            }
        }
    }
}

/// The bits of limb `i - 1` that a shift by `s` moves into limb `i`.
spec fn spill(m: Seq<u64>, i: int, s: nat) -> nat {
    if i <= 0 || i > m.len() {
        0
    } else {
        (m[i - 1] * pow2(s)) as nat / 0x1_0000_0000_0000_0000
    }
}

/// One step of the normalized single-limb division: the dividend is read as if shifted left by `sh`.
fn div_step(m: &[u64], i: usize, sh: u32, rem: u64, dn: u64, v: u64) -> (r: (u64, u64))
    requires
        i < m@.len(),
        sh < 64,
        dn >= 0x8000_0000_0000_0000,
        is_reciprocal(dn, v),
        rem < dn,
    ensures
        r.1 < dn,
        r.0 * dn + r.1 + spill(m@, i + 1, sh as nat) * 0x1_0000_0000_0000_0000 == rem
            * 0x1_0000_0000_0000_0000 + m@[i as int] * pow2(sh as nat) + spill(
            m@,
            i as int,
            sh as nat,
        ),
{
    proof {
        lemma_pow2_pos(sh as nat);
    }
    let lo: u64 = if i == 0 {
        0
    } else {
        let (_w, top): (u64, u64) = shl_word(m[i - 1], sh, 0);
        top
    };
    let (shifted, out): (u64, u64) = shl_word(m[i], sh, lo);
    proof {
        let f = pow2(sh as nat) as int;
        let x = m@[i as int] as int;
        if i > 0 {
            let y = m@[i - 1] as int;
            assert(y * f >= 0) by (nonlinear_arith)
                requires
                    y >= 0,
                    f >= 0,
            ;
        }
        assert(lo == spill(m@, i as int, sh as nat));
        // the incoming bits never carry out of the shifted limb
        let (w0, t0) = ((x * f) % 0x1_0000_0000_0000_0000, (x * f) / 0x1_0000_0000_0000_0000);
        assert(x * f >= 0) by (nonlinear_arith)
            requires
                x >= 0,
                f >= 0,
        ;
        lemma_low_bits_clear(x, sh, w0);
        assert(w0 + lo < 0x1_0000_0000_0000_0000);
        assert(out == t0);
    }
    udiv_qrnnd_preinv(rem, shifted, dn, v)
}

/// The low word of `x * 2^s` leaves room for `s` further bits.
proof fn lemma_low_bits_clear(x: int, s: u32, w: int)
    requires
        s < 64,
        x >= 0,
        w == (x * pow2(s as nat)) % 0x1_0000_0000_0000_0000,
    ensures
        w + pow2(s as nat) <= 0x1_0000_0000_0000_0000,
{
    let f = pow2(s as nat) as int;
    let g = pow2((64 - s) as nat) as int;
    lemma_pow2_adds(s as nat, (64 - s) as nat);
    lemma_pow2_64();
    lemma_pow2_pos(s as nat);
    lemma_pow2_pos((64 - s) as nat);
    // (x f) mod (f g) == f (x mod g)
    vstd::arithmetic::div_mod::lemma_truncate_middle(x, f, g);
    vstd::arithmetic::div_mod::lemma_mod_bound(x, g);
    assert(x * f == f * x) by (nonlinear_arith);
    let r = x % g;
    assert(f * r + f <= f * g) by (nonlinear_arith)
        requires
            r <= g - 1,
            f >= 0,
    ;
}

/// The remainder of a shifted division is the shifted remainder.
proof fn lemma_unshift(v: int, q: int, d: int, rem: int, f: int, r: int, out: int)
    requires
        f >= 1,
        q * (d * f) + rem == v * f,
        0 <= rem < d * f,
        rem == r * f + out,
        0 <= out < f,
        r >= 0,
    ensures
        out == 0,
        q * d + r == v,
        r < d,
{
    assert((v - q * d) * f == rem) by (nonlinear_arith)
        requires
            q * (d * f) + rem == v * f,
    ;
    let t = v - q * d;
    assert(t == r && out == 0) by (nonlinear_arith)
        requires
            t * f == r * f + out,
            0 <= out < f,
    ;
    assert(r < d) by (nonlinear_arith)
        requires
            r * f < d * f,
            f >= 1,
    ;
}

/// Divide `m` by a single nonzero limb in place, returning the remainder.
pub(crate) fn div_rem_limb_inplace(m: &mut Vec<u64>, d: u64) -> (rem: u64)
    requires
        d != 0,
    ensures
        limbs_val(old(m)@) == limbs_val(final(m)@) * d + rem,
        rem < d,
        canonical(final(m)@),
{
    let ghost m0 = m@;
    if m.len() == 0 {
        proof {
            assert(0 * d == 0) by (nonlinear_arith);
        }
        return 0;
    }
    if m.len() == 1 {
        let x: u64 = m[0];
        proof {
            assert(m0 =~= seq![x]);
            lemma_val_single(x);
            lemma_val_single((x / d) as u64);
            vstd::arithmetic::div_mod::lemma_fundamental_div_mod(x as int, d as int);
            assert(d * (x / d) == (x / d) * d) by (nonlinear_arith);
        }
        m.set(0, x / d);
        proof {
            assert(m@ =~= seq![(x / d) as u64]);
        }
        strip(m);
        return x % d;
    }
    let sh: u32 = d.leading_zeros();
    proof {
        lemma_leading_zeros(d);
        vstd::bits::lemma_u64_shl_is_mul(d, sh as u64);
    }
    let dn: u64 = d << (sh as u64);
    let v: u64 = reciprocal_2by1(dn);
    let n: usize = m.len();
    proof {
        lemma_pow2_pos(sh as nat);
    }
    let (_w, top): (u64, u64) = shl_word(m[n - 1], sh, 0);
    let mut rem: u64 = top;
    let mut i: usize = n;
    let ghost f = pow2(sh as nat) as int;
    proof {
        assert(dn >= f) by (nonlinear_arith)
            requires
                dn == d * f,
                d >= 1,
                f >= 0,
        ;
        let x = m0[n - 1] as int;
        assert(x * f >= 0) by (nonlinear_arith)
            requires
                x >= 0,
                f >= 0,
        ;
        assert(m@.skip(n as int).len() == 0);
        assert(m0.skip(n as int).len() == 0);
        assert(0 * dn == 0) by (nonlinear_arith);
        assert(0 * f == 0) by (nonlinear_arith);
    }
    while i > 0
        invariant
            sh < 64,
            f == pow2(sh as nat),
            dn >= 0x8000_0000_0000_0000,
            is_reciprocal(dn, v),
            n == m@.len() == m0.len(),
            i <= n,
            rem < dn,
            limbs_val(m@.skip(i as int)) * dn + rem == limbs_val(m0.skip(i as int)) * f + spill(
                m0,
                i as int,
                sh as nat,
            ),
            forall|k: int| 0 <= k < i ==> m@[k] == m0[k],
        decreases i,
    {
        i = i - 1;
        let ghost m1 = m@;
        let (q, r): (u64, u64) = div_step(m.as_slice(), i, sh, rem, dn, v);
        m.set(i, q);
        proof {
            lemma_val_skip(m0, i as int);
            lemma_val_skip(m@, i as int);
            assert(m@.skip(i + 1) =~= m1.skip(i + 1));
            assert(spill(m1, i as int, sh as nat) == spill(m0, i as int, sh as nat));
            assert(spill(m1, i + 1, sh as nat) == spill(m0, i + 1, sh as nat));
            let b: int = 0x1_0000_0000_0000_0000;
            let hq = limbs_val(m1.skip(i + 1)) as int;
            let hm = limbs_val(m0.skip(i + 1)) as int;
            let x = m0[i as int] as int;
            assert((q + b * hq) * dn == q * dn + b * (hq * dn)) by (nonlinear_arith);
            assert((x + b * hm) * f == x * f + b * (hm * f)) by (nonlinear_arith);
        }
        rem = r;
    }
    proof {
        assert(m@.skip(0) =~= m@);
        assert(m0.skip(0) =~= m0);
    }
    strip(m);
    let (r, out): (u64, u64) = shr_word(rem, sh, 0);
    proof {
        lemma_unshift(
            limbs_val(m0) as int,
            limbs_val(m@) as int,
            d as int,
            rem as int,
            f,
            r as int,
            out as int,
        );
    }
    r
}

/// `mag mod d` for a single nonzero limb `d`, without building a quotient.
pub(crate) fn rem_by_limb(mag: &[u64], d: u64) -> (r: u64)
    requires
        d != 0,
    ensures
        r == limbs_val(mag@) % (d as nat),
{
    if mag.len() == 0 {
        proof {
            vstd::arithmetic::div_mod::lemma_small_mod(0, d as nat);
        }
        return 0;
    }
    if mag.len() == 1 {
        proof {
            assert(mag@ =~= seq![mag@[0]]);
            lemma_val_single(mag@[0]);
        }
        return mag[0] % d;
    }
    let sh: u32 = d.leading_zeros();
    proof {
        lemma_leading_zeros(d);
        vstd::bits::lemma_u64_shl_is_mul(d, sh as u64);
    }
    let dn: u64 = d << (sh as u64);
    let v: u64 = reciprocal_2by1(dn);
    let n: usize = mag.len();
    proof {
        lemma_pow2_pos(sh as nat);
    }
    let (_w, top): (u64, u64) = shl_word(mag[n - 1], sh, 0);
    let mut rem: u64 = top;
    let mut i: usize = n;
    let ghost f = pow2(sh as nat) as int;
    let ghost mut quot: int = 0;
    proof {
        assert(dn >= f) by (nonlinear_arith)
            requires
                dn == d * f,
                d >= 1,
                f >= 0,
        ;
        let x = mag@[n - 1] as int;
        assert(x * f >= 0) by (nonlinear_arith)
            requires
                x >= 0,
                f >= 0,
        ;
        assert(mag@.skip(n as int).len() == 0);
        assert(0 * dn == 0) by (nonlinear_arith);
        assert(0 * f == 0) by (nonlinear_arith);
    }
    while i > 0
        invariant
            sh < 64,
            f == pow2(sh as nat),
            dn >= 0x8000_0000_0000_0000,
            is_reciprocal(dn, v),
            n == mag@.len(),
            i <= n,
            rem < dn,
            quot * dn + rem == limbs_val(mag@.skip(i as int)) * f + spill(
                mag@,
                i as int,
                sh as nat,
            ),
        decreases i,
    {
        i = i - 1;
        let (q, r): (u64, u64) = div_step(mag, i, sh, rem, dn, v);
        proof {
            lemma_val_skip(mag@, i as int);
            let b: int = 0x1_0000_0000_0000_0000;
            let hm = limbs_val(mag@.skip(i + 1)) as int;
            let x = mag@[i as int] as int;
            let old_quot = quot;
            assert((q + b * old_quot) * dn == q * dn + b * (old_quot * dn)) by (nonlinear_arith);
            assert((x + b * hm) * f == x * f + b * (hm * f)) by (nonlinear_arith);
            quot = q + b * old_quot;
        }
        rem = r;
    }
    proof {
        assert(mag@.skip(0) =~= mag@);
    }
    let (r, out): (u64, u64) = shr_word(rem, sh, 0);
    proof {
        let val = limbs_val(mag@) as int;
        lemma_unshift(val, quot, d as int, rem as int, f, r as int, out as int);
        vstd::arithmetic::div_mod::lemma_fundamental_div_mod_converse(val, d as int, quot, r as int);
    }
    r
}

/// Divide a magnitude by a single nonzero limb.
fn divmod_by_limb(a: &[u64], d: u64, want_rem: bool) -> (qr: (Vec<u64>, Vec<u64>))
    requires
        d != 0,
    ensures
        canonical(qr.0@),
        canonical(qr.1@),
        limbs_val(a@) == limbs_val(qr.0@) * d + limbs_val(a@) % (d as nat),
        limbs_val(qr.1@) == if want_rem {
            limbs_val(a@) % (d as nat)
        } else {
            0
        },
{
    let mut q: Vec<u64> = slice_to_vec(a);
    let rem: u64 = div_rem_limb_inplace(&mut q, d);
    proof {
        vstd::arithmetic::div_mod::lemma_fundamental_div_mod_converse(
            limbs_val(a@) as int,
            d as int,
            limbs_val(q@) as int,
            rem as int,
        );
        lemma_val_single(rem);
    }
    let mut r: Vec<u64> = Vec::new();
    if want_rem && rem != 0 {
        r.push(rem);
        proof {
            assert(r@ =~= seq![rem]);
        }
    }
    (q, r)
}

/// Estimate one quotient digit from the top three limbs of the window and the top two of the
/// divisor: the exact 3-by-2 quotient, capped at the largest limb.
fn estimate_digit(u2: u64, u1: u64, u0: u64, v1: u64, v0: u64, recip: u64) -> (q: u64)
    requires
        v1 >= 0x8000_0000_0000_0000,
        u2 <= v1,
        is_reciprocal(v1, recip),
    ensures
        q * (v1 * 0x1_0000_0000_0000_0000 + v0) <= (u2 * 0x1_0000_0000_0000_0000 + u1)
            * 0x1_0000_0000_0000_0000 + u0,
        q == 0xffff_ffff_ffff_ffff || (q + 1) * (v1 * 0x1_0000_0000_0000_0000 + v0) > (u2
            * 0x1_0000_0000_0000_0000 + u1) * 0x1_0000_0000_0000_0000 + u0,
{
    let base: u128 = 0x1_0000_0000_0000_0000;
    let num: u128 = (u2 as u128) * base + u1 as u128;
    let mut qhat: u128 = 0;
    let mut rhat: u128 = 0;
    let ghost b: int = 0x1_0000_0000_0000_0000;
    let ghost dd: int = v1 * b + v0;
    let ghost u3: int = (u2 * b + u1) * b + u0;
    if u2 < v1 {
        let (qh, rh): (u64, u64) = udiv_qrnnd_preinv(u2, u1, v1, recip);
        qhat = qh as u128;
        rhat = rh as u128;
    } else {
        qhat = num / (v1 as u128);
        rhat = num % (v1 as u128);
        proof {
            vstd::arithmetic::div_mod::lemma_fundamental_div_mod(num as int, v1 as int);
            assert(v1 * qhat == qhat * v1) by (nonlinear_arith);
        }
    }
    assert((qhat + 1) * dd > u3) by (nonlinear_arith)
        requires
            qhat * v1 + rhat == num,
            rhat < v1,
            dd == v1 * b + v0,
            u3 == num * b + u0,
            0 <= u0 < b,
            v0 >= 0,
            qhat >= 0,
            b >= 1,
    ;
    loop
        invariant_except_break
            rhat < base,
        invariant
            base == b,
            b == 0x1_0000_0000_0000_0000,
            v1 >= 0x8000_0000_0000_0000,
            u2 <= v1,
            dd == v1 * b + v0,
            u3 == num * b + u0,
            num == u2 * b + u1,
            qhat * v1 + rhat == num,
            qhat >= b - 1 || (qhat + 1) * dd > u3,
        ensures
            qhat < base,
            qhat * v0 <= rhat * b + u0,
        decreases qhat,
    {
        proof {
            assert(rhat * b <= (b - 1) * b) by (nonlinear_arith)
                requires
                    rhat <= b - 1,
                    b >= 0,
            ;
            if qhat < base {
                assert(qhat * v0 <= (b - 1) * (b - 1)) by (nonlinear_arith)
                    requires
                        0 <= qhat <= b - 1,
                        0 <= v0 <= b - 1,
                ;
            }
        }
        if qhat >= base || qhat * (v0 as u128) > rhat * base + u0 as u128 {
            proof {
                assert(qhat > 0) by {
                    if qhat == 0 {
                        assert(0 * v0 == 0) by (nonlinear_arith);
                    }
                }
                if qhat < base {
                    assert(qhat * dd > u3) by (nonlinear_arith)
                        requires
                            qhat * v1 + rhat == num,
                            qhat * v0 > rhat * b + u0,
                            dd == v1 * b + v0,
                            u3 == num * b + u0,
                    ;
                }
                assert((qhat - 1) * v1 + (rhat + v1) == num) by (nonlinear_arith)
                    requires
                        qhat * v1 + rhat == num,
                ;
            }
            qhat = qhat - 1;
            rhat = rhat + v1 as u128;
            if rhat < base {
                continue ;
            }
            proof {
                if qhat >= base {
                    assert(qhat * v1 >= b * v1) by (nonlinear_arith)
                        requires
                            qhat >= b,
                            v1 >= 0,
                    ;
                    assert(u2 * b <= v1 * b) by (nonlinear_arith)
                        requires
                            u2 <= v1,
                            b >= 0,
                    ;
                    assert(b * v1 == v1 * b) by (nonlinear_arith);
                }
                assert(qhat * v0 <= (b - 1) * (b - 1)) by (nonlinear_arith)
                    requires
                        0 <= qhat <= b - 1,
                        0 <= v0 <= b - 1,
                ;
                assert(rhat * b >= b * b) by (nonlinear_arith)
                    requires
                        rhat >= b,
                        b >= 0,
                ;
            }
        }
        break ;
    }
    assert(qhat * dd <= u3) by (nonlinear_arith)
        requires
            qhat * v1 + rhat == num,
            qhat * v0 <= rhat * b + u0,
            dd == v1 * b + v0,
            u3 == num * b + u0,
    ;
    qhat as u64
}

/// Multiply and subtract: `un -= q * vn * 2^(64 j)` within the window `j ..= j + n`, returning the
/// borrow out of it.
fn mul_sub_window(un: &mut Vec<u64>, j: usize, vn: &[u64], q: u64) -> (borrow: u64)
    requires
        j + vn@.len() < old(un).len(),
    ensures
        final(un)@.len() == old(un)@.len(),
        borrow <= 1,
        limbs_val(final(un)@) == limbs_val(old(un)@) - bpow(j as nat) * (q * limbs_val(vn@)) + bpow(
            (j + vn@.len() + 1) as nat,
        ) * borrow,
        forall|k: int| 0 <= k < j ==> final(un)@[k] == old(un)@[k],
        forall|k: int| j + vn@.len() < k < old(un)@.len() ==> final(un)@[k] == old(un)@[k],
{
    let n: usize = vn.len();
    let ghost u0 = un@;
    let mut carry: u64 = 0;
    let mut borrow: u64 = 0;
    let mut i: usize = 0;
    proof {
        assert(vn@.take(0).len() == 0);
        let p = bpow(j as nat) as int;
        assert(bpow((j + 0) as nat) * 0 == 0) by (nonlinear_arith);
        assert(p * (q * 0) == 0) by (nonlinear_arith);
    }
    while i < n
        invariant
            i <= n,
            n == vn@.len(),
            j + n < un.len(),
            un@.len() == u0.len(),
            borrow <= 1,
            limbs_val(un@) - bpow((j + i) as nat) * (carry + borrow) == limbs_val(u0) - bpow(
                j as nat,
            ) * (q * limbs_val(vn@.take(i as int))),
            forall|k: int| 0 <= k < j ==> un@[k] == u0[k],
            forall|k: int| j + n < k < u0.len() ==> un@[k] == u0[k],
        decreases n - i,
    {
        let (lo, c): (u64, u64) = super::mul::mul_add_add(q, vn[i], carry, 0);
        let (d, bo): (u64, u64) = sub_borrow(un[j + i], lo, borrow);
        proof {
            lemma_val_update(un@, j + i, d);
            lemma_val_take(vn@, i as int);
            lemma_bpow_add(j as nat, i as nat);
            let p = bpow(j as nat) as int;
            let r = bpow(i as nat) as int;
            let pr = bpow((j + i) as nat) as int;
            let x = vn@[i as int] as int;
            let w = limbs_val(vn@.take(i as int)) as int;
            let o = un@[j + i] as int;
            let b: int = 0x1_0000_0000_0000_0000;
            let qq = q as int;
            let cin = carry as int;
            let bin = borrow as int;
            let cout = c as int;
            let bout = bo as int;
            assert(pr * (d - o) - (b * pr) * (cout + bout) == -(pr * (cin + bin)) - pr * (qq * x))
                by (nonlinear_arith)
                requires
                    d - b * bout == o - lo - bin,
                    lo + b * cout == qq * x + cin,
            ;
            assert(p * (qq * (w + r * x)) == p * (qq * w) + pr * (qq * x)) by (nonlinear_arith)
                requires
                    pr == p * r,
            ;
        }
        un.set(j + i, d);
        carry = c;
        borrow = bo;
        i = i + 1;
    }
    let (d, bo): (u64, u64) = sub_borrow(un[j + n], carry, borrow);
    proof {
        assert(vn@.take(n as int) =~= vn@);
        lemma_val_update(un@, j + n, d);
        let pr = bpow((j + n) as nat) as int;
        let o = un@[j + n] as int;
        let b: int = 0x1_0000_0000_0000_0000;
        let cin = carry as int;
        let bin = borrow as int;
        let bout = bo as int;
        assert(pr * (d - o) == (b * pr) * bout - pr * (cin + bin)) by (nonlinear_arith)
            requires
                d - b * bout == o - cin - bin,
        ;
    }
    un.set(j + n, d);
    bo
}

/// Add the divisor back: `un += vn * 2^(64 j)` within the window `j ..= j + n`, returning the carry
/// out of it.
fn add_back_window(un: &mut Vec<u64>, j: usize, vn: &[u64]) -> (carry: u64)
    requires
        j + vn@.len() < old(un).len(),
    ensures
        final(un)@.len() == old(un)@.len(),
        carry <= 1,
        limbs_val(final(un)@) + bpow((j + vn@.len() + 1) as nat) * carry == limbs_val(old(un)@)
            + bpow(j as nat) * limbs_val(vn@),
        forall|k: int| 0 <= k < j ==> final(un)@[k] == old(un)@[k],
        forall|k: int| j + vn@.len() < k < old(un)@.len() ==> final(un)@[k] == old(un)@[k],
{
    let n: usize = vn.len();
    let ghost u0 = un@;
    let mut carry: u64 = 0;
    let mut i: usize = 0;
    proof {
        assert(vn@.take(0).len() == 0);
        let p = bpow(j as nat) as int;
        assert(bpow((j + 0) as nat) * 0 == 0) by (nonlinear_arith);
        assert(p * 0 == 0) by (nonlinear_arith);
    }
    while i < n
        invariant
            i <= n,
            n == vn@.len(),
            j + n < un.len(),
            un@.len() == u0.len(),
            carry <= 1,
            limbs_val(un@) + bpow((j + i) as nat) * carry == limbs_val(u0) + bpow(j as nat)
                * limbs_val(vn@.take(i as int)),
            forall|k: int| 0 <= k < j ==> un@[k] == u0[k],
            forall|k: int| j + n < k < u0.len() ==> un@[k] == u0[k],
        decreases n - i,
    {
        let (s, c): (u64, u64) = add_carry(un[j + i], vn[i], carry);
        proof {
            lemma_val_update(un@, j + i, s);
            lemma_val_take(vn@, i as int);
            lemma_bpow_add(j as nat, i as nat);
            let p = bpow(j as nat) as int;
            let r = bpow(i as nat) as int;
            let pr = bpow((j + i) as nat) as int;
            let x = vn@[i as int] as int;
            let w = limbs_val(vn@.take(i as int)) as int;
            let o = un@[j + i] as int;
            let b: int = 0x1_0000_0000_0000_0000;
            let cin = carry as int;
            let cout = c as int;
            assert(pr * (s - o) + (b * pr) * cout == pr * cin + pr * x) by (nonlinear_arith)
                requires
                    s + b * cout == o + x + cin,
            ;
            assert(p * (w + r * x) == p * w + pr * x) by (nonlinear_arith)
                requires
                    pr == p * r,
            ;
        }
        un.set(j + i, s);
        carry = c;
        i = i + 1;
    }
    let (s, c): (u64, u64) = add_carry(un[j + n], 0, carry);
    proof {
        assert(vn@.take(n as int) =~= vn@);
        lemma_val_update(un@, j + n, s);
        let pr = bpow((j + n) as nat) as int;
        let o = un@[j + n] as int;
        let b: int = 0x1_0000_0000_0000_0000;
        let cin = carry as int;
        let cout = c as int;
        assert(pr * (s - o) + (b * pr) * cout == pr * cin) by (nonlinear_arith)
            requires
                s + b * cout == o + cin,
        ;
    }
    un.set(j + n, s);
    c
}

/// The digit estimate is the true digit or one more. `p` is the weight of the limbs that the
/// estimate reads, `lv` and `lw` what lies below them.
proof fn lemma_estimate_close(
    p: int,
    lv: int,
    lw: int,
    v1: int,
    v0: int,
    u2: int,
    u1: int,
    u0: int,
    q: int,
)
    requires
        p >= 1,
        0 <= lv < p,
        0 <= lw < p,
        0x8000_0000_0000_0000 <= v1 < 0x1_0000_0000_0000_0000,
        0 <= v0 < 0x1_0000_0000_0000_0000,
        0 <= q < 0x1_0000_0000_0000_0000,
        q * (v1 * 0x1_0000_0000_0000_0000 + v0) <= (u2 * 0x1_0000_0000_0000_0000 + u1)
            * 0x1_0000_0000_0000_0000 + u0,
        q == 0xffff_ffff_ffff_ffff || (q + 1) * (v1 * 0x1_0000_0000_0000_0000 + v0) > (u2
            * 0x1_0000_0000_0000_0000 + u1) * 0x1_0000_0000_0000_0000 + u0,
        lw + p * ((u2 * 0x1_0000_0000_0000_0000 + u1) * 0x1_0000_0000_0000_0000 + u0)
            < 0x1_0000_0000_0000_0000 * (lv + p * (v1 * 0x1_0000_0000_0000_0000 + v0)),
    ensures
        ({
            let v = lv + p * (v1 * 0x1_0000_0000_0000_0000 + v0);
            let w = lw + p * ((u2 * 0x1_0000_0000_0000_0000 + u1) * 0x1_0000_0000_0000_0000 + u0);
            &&& w < (q + 1) * v
            &&& q * v <= w + v
        }),
{
    let b: int = 0x1_0000_0000_0000_0000;
    let d = v1 * b + v0;
    let u3 = (u2 * b + u1) * b + u0;
    let v = lv + p * d;
    let w = lw + p * u3;
    if q == b - 1 {
        assert((q + 1) * v == b * v);
    } else {
        assert(p * ((q + 1) * d) >= p * (u3 + 1)) by (nonlinear_arith)
            requires
                (q + 1) * d >= u3 + 1,
                p >= 0,
        ;
        assert(p * (u3 + 1) == p * u3 + p) by (nonlinear_arith);
        assert((q + 1) * v >= p * ((q + 1) * d)) by (nonlinear_arith)
            requires
                v == lv + p * d,
                lv >= 0,
                q >= 0,
        ;
    }
    assert(q * v <= p * (q * d) + p * q) by (nonlinear_arith)
        requires
            v == lv + p * d,
            lv <= p,
            q >= 0,
    ;
    assert(p * (q * d) <= p * u3) by (nonlinear_arith)
        requires
            q * d <= u3,
            p >= 0,
    ;
    assert(p * q <= p * d) by (nonlinear_arith)
        requires
            q <= d,
            p >= 0,
    ;
}

/// The window's top limb never exceeds the divisor's.
proof fn lemma_window_top(p: int, lv: int, lw: int, v1: int, v0: int, u2: int, u1: int, u0: int)
    requires
        p >= 1,
        0 <= lv < p,
        0 <= lw,
        0 <= v0 < 0x1_0000_0000_0000_0000,
        0 <= u1,
        0 <= u0,
        lw + p * ((u2 * 0x1_0000_0000_0000_0000 + u1) * 0x1_0000_0000_0000_0000 + u0)
            < 0x1_0000_0000_0000_0000 * (lv + p * (v1 * 0x1_0000_0000_0000_0000 + v0)),
    ensures
        u2 <= v1,
{
    let b: int = 0x1_0000_0000_0000_0000;
    let d = v1 * b + v0;
    let u3 = (u2 * b + u1) * b + u0;
    assert(p * u3 >= p * (u2 * b * b)) by (nonlinear_arith)
        requires
            u3 >= u2 * b * b,
            p >= 0,
    ;
    assert(lv + p * d < p * (d + 1)) by (nonlinear_arith)
        requires
            lv < p,
    ;
    assert(p * (d + 1) <= p * ((v1 + 1) * b)) by (nonlinear_arith)
        requires
            d + 1 <= (v1 + 1) * b,
            p >= 0,
    ;
    assert(p * (u2 * b * b) < b * (p * ((v1 + 1) * b)));
    assert(b * (p * ((v1 + 1) * b)) == p * ((v1 + 1) * b * b)) by (nonlinear_arith);
    assert(u2 * b * b < (v1 + 1) * b * b) by (nonlinear_arith)
        requires
            p * (u2 * b * b) < p * ((v1 + 1) * b * b),
            p >= 1,
    ;
}

/// One quotient digit of Algorithm D. The window's value `limbs_val(un[j..])` is reduced below the
/// divisor.
fn knuth_digit(un: &mut Vec<u64>, j: usize, vn: &[u64], recip: u64) -> (q: u64)
    requires
        vn@.len() >= 2,
        vn@.last() >= 0x8000_0000_0000_0000,
        is_reciprocal(vn@.last(), recip),
        j + vn@.len() < old(un).len(),
        limbs_val(old(un)@.skip(j as int)) < 0x1_0000_0000_0000_0000 * limbs_val(vn@),
    ensures
        final(un)@.len() == old(un)@.len(),
        final(un)@.take(j as int) == old(un)@.take(j as int),
        limbs_val(final(un)@.skip(j as int)) == limbs_val(old(un)@.skip(j as int)) - q * limbs_val(
            vn@,
        ),
        limbs_val(final(un)@.skip(j as int)) < limbs_val(vn@),
{
    let n: usize = vn.len();
    let ghost un0 = un@;
    let ghost s = un0.skip(j as int);
    let ghost v = limbs_val(vn@) as int;
    let ghost w = limbs_val(s) as int;
    let ghost p = bpow((n - 2) as nat) as int;
    let ghost lv = limbs_val(vn@.take(n - 2)) as int;
    let ghost lw = limbs_val(s.take(n - 2)) as int;
    let u2: u64 = un[j + n];
    let u1: u64 = un[j + n - 1];
    let u0: u64 = un[j + n - 2];
    let v1: u64 = vn[n - 1];
    let v0: u64 = vn[n - 2];
    proof {
        lemma_val_bound(vn@);
        lemma_bpow_pos((n - 2) as nat);
        // the divisor: lv + p (v1 B + v0)
        lemma_val_split(vn@, n - 2);
        lemma_val_skip(vn@, n - 2);
        lemma_val_skip(vn@, n - 1);
        assert(vn@.skip(n as int).len() == 0);
        lemma_val_bound(vn@.take(n - 2));
        // the window: lw + p ((u2 B + u1) B + u0), everything above it being zero
        lemma_high_limbs_zero(s, (n + 1) as nat);
        lemma_val_split(s, n - 2);
        lemma_val_skip(s, n - 2);
        lemma_val_skip(s, n - 1);
        lemma_val_skip(s, n as int);
        lemma_val_zeros(s.skip(n + 1));
        lemma_val_bound(s.take(n - 2));
        assert(v == lv + p * (v1 * 0x1_0000_0000_0000_0000 + v0));
        assert(w == lw + p * ((u2 * 0x1_0000_0000_0000_0000 + u1) * 0x1_0000_0000_0000_0000 + u0));
        lemma_window_top(
            p,
            lv,
            lw,
            v1 as int,
            v0 as int,
            u2 as int,
            u1 as int,
            u0 as int,
        );
    }
    let mut q: u64 = estimate_digit(u2, u1, u0, v1, v0, recip);
    proof {
        lemma_estimate_close(
            p,
            lv,
            lw,
            v1 as int,
            v0 as int,
            u2 as int,
            u1 as int,
            u0 as int,
            q as int,
        );
    }
    let borrow: u64 = mul_sub_window(un, j, vn, q);
    let ghost un1 = un@;
    proof {
        assert forall|k: int| j + n < k < un0.len() implies un0[k] == 0 by {
            assert(un0[k] == s[k - j]);
        }
        assert(bpow(j as nat) * (-(q * v)) == -(bpow(j as nat) * (q * v))) by (nonlinear_arith);
        lemma_window_value(un0, un1, j as int, n as nat, -(q * v), borrow as int);
        if borrow == 0 {
            lemma_digit_done(w, v, q as int);
        }
    }
    if borrow != 0 {
        let ghost q0 = q as int;
        proof {
            if q == 0 {
                assert(0 * v == 0) by (nonlinear_arith);
            }
        }
        q = q - 1;
        let carry: u64 = add_back_window(un, j, vn);
        proof {
            assert(bpow((j + n + 1) as nat) * (-(carry as int)) == -(bpow((j + n + 1) as nat)
                * carry)) by (nonlinear_arith);
            lemma_window_value(un1, un@, j as int, n as nat, v, -(carry as int));
            let top = bpow((n + 1) as nat) as int;
            assert(q * v == q0 * v - v) by (nonlinear_arith)
                requires
                    q == q0 - 1,
            ;
            assert(top * 1 == top) by (nonlinear_arith);
            assert(top * 0 == 0) by (nonlinear_arith);
            assert(top * (-1) == -top) by (nonlinear_arith);
        }
    }
    proof {
        assert(un@.take(j as int) =~= un0.take(j as int));
    }
    q
}

/// A digit whose multiple of the divisor fits the window leaves less than the divisor.
proof fn lemma_digit_done(w: int, v: int, q: int)
    requires
        w < (q + 1) * v,
    ensures
        w - q * v < v,
{
    assert((q + 1) * v == q * v + v) by (nonlinear_arith);
}

/// What a change confined to the window `j ..= j + n` does to the value above `j`.
proof fn lemma_window_value(a: Seq<u64>, b: Seq<u64>, j: int, n: nat, delta: int, wrap: int)
    requires
        0 <= j,
        j + n < a.len(),
        a.len() == b.len(),
        forall|k: int| 0 <= k < j ==> a[k] == b[k],
        forall|k: int| j + n < k < a.len() ==> a[k] == b[k],
        forall|k: int| j + n < k < a.len() ==> a[k] == 0,
        limbs_val(b) == limbs_val(a) + bpow(j as nat) * delta + bpow((j + n + 1) as nat) * wrap,
    ensures
        limbs_val(b.skip(j)) == limbs_val(a.skip(j)) + delta + bpow((n + 1) as nat) * wrap,
        limbs_val(b.skip(j)) < bpow((n + 1) as nat),
        forall|k: int| j + n < k < a.len() ==> b[k] == 0,
{
    lemma_val_split(a, j);
    lemma_val_split(b, j);
    assert(a.take(j) =~= b.take(j));
    lemma_bpow_add(j as nat, (n + 1) as nat);
    lemma_bpow_pos(j as nat);
    let p = bpow(j as nat) as int;
    let t = bpow((n + 1) as nat) as int;
    let x = limbs_val(a.skip(j)) as int;
    let y = limbs_val(b.skip(j)) as int;
    let pt = bpow((j + n + 1) as nat) as int;
    assert(p * y == p * (x + delta + t * wrap)) by (nonlinear_arith)
        requires
            p * y == p * x + p * delta + pt * wrap,
            pt == p * t,
    ;
    assert(y == x + delta + t * wrap) by (nonlinear_arith)
        requires
            p * y == p * (x + delta + t * wrap),
            p >= 1,
    ;
    let s = b.skip(j);
    lemma_val_split(s, (n + 1) as int);
    lemma_val_bound(s.take((n + 1) as int));
    lemma_val_zeros(s.skip((n + 1) as int));
    assert(t * 0 == 0) by (nonlinear_arith);
}

/// Normalization: shifting the divisor left until its top bit is set keeps its width.
proof fn lemma_normalized_divisor(b: Seq<u64>, vn: Seq<u64>, s: nat, carry: u64)
    requires
        b.len() > 0,
        b.last() != 0,
        vn.len() == b.len(),
        s == vstd::std_specs::bits::u64_leading_zeros(b.last()),
        limbs_val(vn) + bpow(b.len()) * carry == limbs_val(b) * pow2(s),
    ensures
        carry == 0,
        limbs_val(vn) == limbs_val(b) * pow2(s),
        vn.last() >= 0x8000_0000_0000_0000,
        bpow((b.len() - 1) as nat) * pow2(s) <= limbs_val(vn),
{
    let n = b.len();
    let top = b.last() as int;
    let f = pow2(s) as int;
    let p = bpow((n - 1) as nat) as int;
    let base: int = 0x1_0000_0000_0000_0000;
    lemma_leading_zeros(b.last());
    lemma_pow2_pos(s);
    lemma_pow2_adds((64 - s) as nat, s);
    lemma_pow2_64();
    lemma_bpow_pos((n - 1) as nat);
    lemma_val_split(b, n - 1);
    lemma_val_skip(b, n - 1);
    lemma_val_bound(b.take(n - 1));
    assert(b.skip(n as int).len() == 0);
    let low = limbs_val(b.take(n - 1)) as int;
    let v = limbs_val(b) as int;
    assert(v == low + p * top);
    // (top + 1) f <= B
    let g = pow2((64 - s) as nat) as int;
    assert((top + 1) * f <= base) by (nonlinear_arith)
        requires
            top + 1 <= g,
            g * f == base,
            f >= 0,
    ;
    assert(p * (top + 1) == p * top + p) by (nonlinear_arith);
    assert(v * f < p * base) by (nonlinear_arith)
        requires
            v < p * (top + 1),
            (top + 1) * f <= base,
            f >= 1,
            p >= 1,
            v >= 0,
    {
        assert(v * f < (p * (top + 1)) * f);
        assert((p * (top + 1)) * f == p * ((top + 1) * f));
        assert(p * ((top + 1) * f) <= p * base);
    }
    assert(bpow(n) == base * p);
    if carry > 0 {
        assert(bpow(n) * carry >= bpow(n)) by (nonlinear_arith)
            requires
                carry >= 1,
        ;
    }
    assert(bpow(n) * 0 == 0) by (nonlinear_arith);
    // lower bounds
    assert(p <= v) by (nonlinear_arith)
        requires
            v == low + p * top,
            low >= 0,
            top >= 1,
            p >= 0,
    ;
    assert(p * f <= v * f) by (nonlinear_arith)
        requires
            p <= v,
            f >= 0,
    ;
    lemma_val_split(vn, n - 1);
    lemma_val_skip(vn, n - 1);
    lemma_val_bound(vn.take(n - 1));
    assert(vn.skip(n as int).len() == 0);
    let t = vn.last() as int;
    let lowv = limbs_val(vn.take(n - 1)) as int;
    assert(v * f >= p * 0x8000_0000_0000_0000) by (nonlinear_arith)
        requires
            v >= p * top,
            top * f >= 0x8000_0000_0000_0000,
            p >= 0,
            f >= 0,
    {
        assert(v * f >= (p * top) * f);
        assert((p * top) * f == p * (top * f));
    }
    assert(t >= 0x8000_0000_0000_0000) by (nonlinear_arith)
        requires
            lowv + p * t >= p * 0x8000_0000_0000_0000,
            lowv < p,
            p >= 1,
    ;
}

/// Knuth's Algorithm D over base-2^64 limbs, for a divisor of at least two limbs.
fn knuth_divmod(a: &[u64], b: &[u64], want_rem: bool) -> (qr: (Vec<u64>, Vec<u64>))
    requires
        canonical(a@),
        canonical(b@),
        b@.len() >= 2,
        limbs_val(a@) >= limbs_val(b@),
    ensures
        canonical(qr.0@),
        canonical(qr.1@),
        limbs_val(qr.0@) == limbs_val(a@) / limbs_val(b@),
        limbs_val(qr.1@) == if want_rem {
            limbs_val(a@) % limbs_val(b@)
        } else {
            0
        },
{
    let n: usize = b.len();
    proof {
        if a@.len() < n {
            lemma_canonical_longer(a@, b@);
        }
        lemma_canonical_lower(b@);
    }
    let m: usize = a.len() - n;
    // normalize so that the divisor's top bit is set
    let s: u32 = b[n - 1].leading_zeros();
    proof {
        lemma_leading_zeros(b@.last());
        lemma_pow2_pos(s as nat);
    }
    let mut vn: Vec<u64> = slice_to_vec(b);
    let vcarry: u64 = shl_limbs(&mut vn, s);
    let mut un: Vec<u64> = slice_to_vec(a);
    let ucarry: u64 = shl_limbs(&mut un, s);
    let ghost un_low = un@;
    un.push(ucarry);
    let ghost f = pow2(s as nat) as int;
    let ghost va = limbs_val(a@) as int;
    let ghost vb = limbs_val(b@) as int;
    let ghost v = limbs_val(vn@) as int;
    proof {
        lemma_normalized_divisor(b@, vn@, s as nat, vcarry);
        lemma_val_push(un_low, ucarry);
    }
    let recip: u64 = reciprocal_2by1(vn[n - 1]);
    let mut q: Vec<u64> = Vec::new();
    push_zeros(&mut q, m + 1);
    let mut j: usize = m + 1;
    proof {
        // un[m + 1 ..] starts below the divisor
        lemma_val_split(un@, m + 1);
        lemma_val_bound(a@);
        lemma_bpow_add((m + 1) as nat, (n - 1) as nat);
        lemma_bpow_pos((m + 1) as nat);
        let p = bpow((m + 1) as nat) as int;
        let r = bpow((n - 1) as nat) as int;
        let hi = limbs_val(un@.skip(m + 1)) as int;
        let lo = limbs_val(un@.take(m + 1)) as int;
        assert((m + 1 + (n - 1)) as nat == a@.len());
        assert(hi < r * f) by (nonlinear_arith)
            requires
                lo + p * hi == va * f,
                lo >= 0,
                va < p * r,
                p >= 1,
                f >= 1,
        {
            assert(p * hi <= va * f);
            assert(va * f < (p * r) * f);
            assert((p * r) * f == p * (r * f));
        }
        assert(q@.skip(m + 1).len() == 0);
        assert(bpow((m + 1) as nat) * (0 * v) == 0) by (nonlinear_arith);
        assert(vn@.last() == vn@[n - 1]);
    }
    while j > 0
        invariant
            n == vn@.len(),
            n >= 2,
            j <= m + 1,
            un@.len() == m + n + 1,
            q@.len() == m + 1,
            vn@.last() >= 0x8000_0000_0000_0000,
            is_reciprocal(vn@.last(), recip),
            v == limbs_val(vn@),
            limbs_val(un@) + bpow(j as nat) * (limbs_val(q@.skip(j as int)) * v) == va * f,
            limbs_val(un@.skip(j as int)) < v,
        decreases j,
    {
        j = j - 1;
        let ghost un0 = un@;
        let ghost q0 = q@;
        proof {
            lemma_val_skip(un@, j as int);
            assert(un.len() == m + n + 1);
        }
        let d: u64 = knuth_digit(&mut un, j, vn.as_slice(), recip);
        q.set(j, d);
        proof {
            lemma_val_split(un0, j as int);
            lemma_val_split(un@, j as int);
            lemma_val_skip(q@, j as int);
            assert(q@.skip(j + 1) =~= q0.skip(j + 1));
            let p = bpow(j as nat) as int;
            let b1 = 0x1_0000_0000_0000_0000 * p;
            let qs = limbs_val(q0.skip(j + 1)) as int;
            let w = limbs_val(un0.skip(j as int)) as int;
            let dd = d as int;
            assert(p * (w - dd * v) + p * ((dd + 0x1_0000_0000_0000_0000 * qs) * v) == p * w + b1
                * (qs * v)) by (nonlinear_arith)
                requires
                    b1 == 0x1_0000_0000_0000_0000 * p,
            ;
        }
    }
    let ghost un_end = un@;
    let ghost qv = limbs_val(q@) as int;
    let ghost rv = limbs_val(un_end) as int;
    proof {
        assert(un@.skip(0) =~= un@);
        assert(q@.skip(0) =~= q@);
        assert(bpow(0) * (qv * v) == qv * v) by (nonlinear_arith)
            requires
                bpow(0) == 1,
        ;
        assert(qv * (vb * f) + rv == va * f);
        lemma_val_bound(vn@);
        lemma_high_limbs_zero(un@, n as nat);
        lemma_val_split(un@, n as int);
        lemma_val_zeros(un@.skip(n as int));
        assert(bpow(n as nat) * 0 == 0) by (nonlinear_arith);
        assert(un@.subrange(0, n as int) =~= un@.take(n as int));
    }
    strip(&mut q);
    // unnormalize the remainder
    un.truncate(n);
    let out: u64 = shr_limbs(&mut un, s);
    proof {
        lemma_unshift(va, qv, vb, rv, f, limbs_val(un@) as int, out as int);
        vstd::arithmetic::div_mod::lemma_fundamental_div_mod_converse(
            va,
            vb,
            qv,
            limbs_val(un@) as int,
        );
    }
    if !want_rem {
        return (q, Vec::new());
    }
    strip(&mut un);
    (q, un)
}

/// The division core: quotient and, when wanted, remainder of two canonical magnitudes.
pub(crate) fn divmod_mag_impl(a: &[u64], b: &[u64], want_rem: bool) -> (qr: (Vec<u64>, Vec<u64>))
    requires
        canonical(a@),
        canonical(b@),
        b@.len() > 0,
    ensures
        canonical(qr.0@),
        canonical(qr.1@),
        limbs_val(qr.0@) == limbs_val(a@) / limbs_val(b@),
        limbs_val(qr.1@) == if want_rem {
            limbs_val(a@) % limbs_val(b@)
        } else {
            0
        },
{
    proof {
        lemma_canonical_lower(b@);
    }
    match relate_mag(a, b) {
        Relation::Less => {
            proof {
                vstd::arithmetic::div_mod::lemma_basic_div(
                    limbs_val(a@) as int,
                    limbs_val(b@) as int,
                );
                vstd::arithmetic::div_mod::lemma_small_mod(limbs_val(a@), limbs_val(b@));
            }
            let r: Vec<u64> = if want_rem {
                slice_to_vec(a)
            } else {
                Vec::new()
            };
            return (Vec::new(), r);
        },
        _ => {},
    }
    if b.len() == 1 {
        proof {
            assert(b@ =~= seq![b@[0]]);
            lemma_val_single(b@[0]);
        }
        let qr: (Vec<u64>, Vec<u64>) = divmod_by_limb(a, b[0], want_rem);
        proof {
            let va = limbs_val(a@) as int;
            let vb = limbs_val(b@) as int;
            vstd::arithmetic::div_mod::lemma_fundamental_div_mod(va, vb);
            assert(limbs_val(qr.0@) == va / vb) by (nonlinear_arith)
                requires
                    va == vb * (va / vb) + va % vb,
                    va == limbs_val(qr.0@) * vb + va % vb,
                    vb >= 1,
            ;
        }
        return qr;
    }
    knuth_divmod(a, b, want_rem)
}

/// Quotient and remainder of two canonical magnitudes.
pub(crate) fn divmod_mag(a: &[u64], b: &[u64]) -> (qr: (Vec<u64>, Vec<u64>))
    requires
        canonical(a@),
        canonical(b@),
        b@.len() > 0,
    ensures
        canonical(qr.0@),
        canonical(qr.1@),
        limbs_val(qr.0@) == limbs_val(a@) / limbs_val(b@),
        limbs_val(qr.1@) == limbs_val(a@) % limbs_val(b@),
{
    divmod_mag_impl(a, b, true)
}

} // verus!
