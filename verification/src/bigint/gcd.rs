//! The greatest common divisor: its theory, and Stein's binary algorithm over words and magnitudes.
use super::addsub::{relate_mag, sub_mag_inplace, Relation};
use super::limbs::{
    bpow, canonical, lemma_canonical_lower, lemma_val_skip, lemma_val_split, lemma_val_zeros,
    limbs_val,
};
use super::shift::{lemma_bpow_pow2, shl_bits, shr_bits};
use super::word::lemma_pow2_64;
use vstd::arithmetic::power2::{
    lemma_pow2_adds, lemma_pow2_pos, lemma_pow2_unfold, lemma2_to64, pow2,
};
use vstd::prelude::*;
use vstd::std_specs::bits::{axiom_u64_trailing_zeros, u64_trailing_zeros};

verus! {

/// Euclid's greatest common divisor.
pub open spec fn gcd(a: nat, b: nat) -> nat
    decreases b,
{
    if b == 0 {
        a
    } else {
        gcd(b, a % b)
    }
}

pub open spec fn times(d: nat, k: nat) -> nat {
    d * k
}

/// `d` divides `n`.
pub open spec fn divides(d: nat, n: nat) -> bool {
    exists|k: nat| n == #[trigger] times(d, k)
}

pub proof fn lemma_divides_intro(d: nat, n: nat, k: nat)
    requires
        n == d * k,
    ensures
        divides(d, n),
{
    assert(n == times(d, k));
}

/// The gcd divides both numbers.
pub proof fn lemma_gcd_divides(a: nat, b: nat)
    ensures
        divides(gcd(a, b), a),
        divides(gcd(a, b), b),
    decreases b,
{
    let g = gcd(a, b);
    if b == 0 {
        assert(a == a * 1);
        lemma_divides_intro(a, a, 1);
        assert(0 == a * 0) by (nonlinear_arith);
        lemma_divides_intro(a, 0, 0);
    } else {
        lemma_gcd_divides(b, a % b);
        let k = choose|k: nat| b == #[trigger] times(g, k);
        let l = choose|l: nat| a % b == #[trigger] times(g, l);
        vstd::arithmetic::div_mod::lemma_fundamental_div_mod(a as int, b as int);
        let q = a / b;
        assert(a == g * (k * q + l)) by (nonlinear_arith)
            requires
                a == b * q + a % b,
                b == g * k,
                a % b == g * l,
        ;
        lemma_divides_intro(g, a, k * q + l);
    }
}

/// Every common divisor divides the gcd.
pub proof fn lemma_gcd_greatest(d: nat, a: nat, b: nat)
    requires
        divides(d, a),
        divides(d, b),
    ensures
        divides(d, gcd(a, b)),
    decreases b,
{
    if b != 0 {
        let k = choose|k: nat| a == #[trigger] times(d, k);
        let l = choose|l: nat| b == #[trigger] times(d, l);
        vstd::arithmetic::div_mod::lemma_fundamental_div_mod(a as int, b as int);
        let q = a / b;
        let r = a % b;
        assert(r == d * (k - l * q)) by (nonlinear_arith)
            requires
                a == b * q + r,
                a == d * k,
                b == d * l,
        ;
        assert(k - l * q >= 0) by (nonlinear_arith)
            requires
                r == d * (k - l * q),
                r >= 0,
                b == d * l,
                b > 0,
                d >= 0,
        ;
        lemma_divides_intro(d, r, (k - l * q) as nat);
        lemma_gcd_greatest(d, b, r);
    }
}

/// Mutual divisors are equal.
pub proof fn lemma_divides_antisym(a: nat, b: nat)
    requires
        divides(a, b),
        divides(b, a),
    ensures
        a == b,
{
    let k = choose|k: nat| b == #[trigger] times(a, k);
    let l = choose|l: nat| a == #[trigger] times(b, l);
    assert(a == b) by (nonlinear_arith)
        requires
            b == a * k,
            a == b * l,
            k >= 0,
            l >= 0,
    ;
}

pub proof fn lemma_gcd_symmetric(a: nat, b: nat)
    ensures
        gcd(a, b) == gcd(b, a),
{
    lemma_gcd_divides(a, b);
    lemma_gcd_divides(b, a);
    lemma_gcd_greatest(gcd(a, b), b, a);
    lemma_gcd_greatest(gcd(b, a), a, b);
    lemma_divides_antisym(gcd(a, b), gcd(b, a));
}

/// Subtracting one number from the other keeps the gcd.
pub proof fn lemma_gcd_sub(a: nat, b: nat)
    requires
        a <= b,
    ensures
        gcd(a, b) == gcd(a, (b - a) as nat),
{
    lemma_gcd_symmetric(a, b);
    lemma_gcd_symmetric(a, (b - a) as nat);
    if a > 0 {
        vstd::arithmetic::div_mod::lemma_mod_sub_multiples_vanish(b as int, a as int);
        assert((b - a) % (a as int) == b as int % a as int);
    }
}

/// A common factor comes out of the gcd.
pub proof fn lemma_gcd_scale(k: nat, a: nat, b: nat)
    requires
        k > 0,
    ensures
        gcd(k * a, k * b) == k * gcd(a, b),
    decreases b,
{
    if b == 0 {
        assert(k * 0 == 0) by (nonlinear_arith);
    } else {
        lemma_gcd_scale(k, b, a % b);
        assert(k * b > 0) by (nonlinear_arith)
            requires
                k > 0,
                b > 0,
        ;
        vstd::arithmetic::div_mod::lemma_truncate_middle(a as int, k as int, b as int);
    }
}

/// A divisor of an odd number and of `2 b` divides `b`.
proof fn lemma_odd_divisor(d: nat, a: nat, b: nat)
    requires
        a % 2 == 1,
        divides(d, a),
        divides(d, 2 * b),
    ensures
        divides(d, b),
{
    let k = choose|k: nat| a == #[trigger] times(d, k);
    let l = choose|l: nat| 2 * b == #[trigger] times(d, l);
    let dh = d / 2;
    let lh = l / 2;
    if d % 2 == 0 {
        assert(a == 2 * (dh * k)) by (nonlinear_arith)
            requires
                a == d * k,
                d == 2 * dh,
        ;
    }
    if l % 2 == 1 {
        assert(2 * b == 2 * (2 * (dh * lh) + dh + lh) + 1) by (nonlinear_arith)
            requires
                2 * b == d * l,
                d == 2 * dh + 1,
                l == 2 * lh + 1,
        ;
    }
    assert(b == d * lh) by (nonlinear_arith)
        requires
            2 * b == d * l,
            l == 2 * lh,
    ;
    lemma_divides_intro(d, b, lh);
}

/// A power of two on one side does not change the gcd with an odd number.
pub proof fn lemma_gcd_odd_pow2(a: nat, b: nat, k: nat)
    requires
        a % 2 == 1,
    ensures
        gcd(a, pow2(k) * b) == gcd(a, b),
    decreases k,
{
    if k == 0 {
        lemma2_to64();
        assert(1 * b == b);
    } else {
        lemma_gcd_odd_pow2(a, b, (k - 1) as nat);
        lemma_pow2_unfold(k);
        let c = pow2((k - 1) as nat) * b;
        assert(pow2(k) * b == 2 * c) by (nonlinear_arith)
            requires
                pow2(k) == 2 * pow2((k - 1) as nat),
                c == pow2((k - 1) as nat) * b,
        ;
        let g = gcd(a, 2 * c);
        let h = gcd(a, c);
        lemma_gcd_divides(a, 2 * c);
        lemma_gcd_divides(a, c);
        lemma_odd_divisor(g, a, c);
        lemma_gcd_greatest(g, a, c);
        let m = choose|m: nat| c == #[trigger] times(h, m);
        assert(2 * c == h * (2 * m)) by (nonlinear_arith)
            requires
                c == h * m,
        ;
        lemma_divides_intro(h, 2 * c, 2 * m);
        lemma_gcd_greatest(h, a, 2 * c);
        lemma_divides_antisym(g, h);
    }
}

/// Taking all twos out of both numbers leaves the smaller power of two as a factor of the gcd.
pub proof fn lemma_gcd_twos(x: nat, y: nat, tx: nat, ty: nat, shift: nat)
    requires
        x % 2 == 1,
        y % 2 == 1,
        shift == (if tx <= ty { tx } else { ty }),
    ensures
        gcd(pow2(tx) * x, pow2(ty) * y) == pow2(shift) * gcd(x, y),
{
    let i = (tx - shift) as nat;
    let j = (ty - shift) as nat;
    lemma_pow2_adds(shift, i);
    lemma_pow2_adds(shift, j);
    lemma_pow2_pos(shift);
    let p = pow2(shift);
    assert(pow2(tx) * x == p * (pow2(i) * x)) by (nonlinear_arith)
        requires
            pow2(tx) == p * pow2(i),
    ;
    assert(pow2(ty) * y == p * (pow2(j) * y)) by (nonlinear_arith)
        requires
            pow2(ty) == p * pow2(j),
    ;
    lemma_gcd_scale(p, pow2(i) * x, pow2(j) * y);
    lemma2_to64();
    if i == 0 {
        assert(pow2(i) * x == x);
        lemma_gcd_odd_pow2(x, y, j);
    } else {
        assert(j == 0);
        assert(pow2(j) * y == y);
        lemma_gcd_symmetric(pow2(i) * x, y);
        lemma_gcd_odd_pow2(y, x, i);
        lemma_gcd_symmetric(x, y);
    }
}

/// The trailing zero count of a nonzero word is its 2-adic valuation.
pub proof fn lemma_trailing_zeros(x: u64)
    requires
        x != 0,
    ensures
        u64_trailing_zeros(x) < 64,
        x == pow2(u64_trailing_zeros(x) as nat) * (x >> (u64_trailing_zeros(x) as u64)),
        (x >> (u64_trailing_zeros(x) as u64)) % 2 == 1,
{
    axiom_u64_trailing_zeros(x);
    let t: u64 = u64_trailing_zeros(x) as u64;
    let y: u64 = x >> t;
    assert(y & 1 == 1 ==> y % 2 == 1) by (bit_vector);
    vstd::bits::lemma_u64_shr_is_div(x, t);
    lemma_pow2_pos(t as nat);
    let p = pow2(t as nat) as int;
    vstd::arithmetic::div_mod::lemma_fundamental_div_mod(x as int, p);
    vstd::arithmetic::div_mod::lemma_mod_bound(x as int, p);
    if t > 0 {
        let t2: u64 = (64 - t) as u64;
        assert(x << t2 == 0);
        assert(x == y << t) by (bit_vector)
            requires
                y == x >> t,
                x << t2 == 0,
                t2 == 64 - t,
                0 < t < 64,
        ;
        assert(p * y <= x) by (nonlinear_arith)
            requires
                x == p * (x as int / p) + x as int % p,
                y == x as int / p,
                x as int % p >= 0,
        ;
        assert(p * y == y * p) by (nonlinear_arith);
        vstd::bits::lemma_u64_shl_is_mul(y, t);
    } else {
        lemma2_to64();
        assert(x >> 0u64 == x) by (bit_vector);
    }
}

/// Binary GCD of two words.
pub(crate) fn gcd_u64(x: u64, y: u64) -> (g: u64)
    ensures
        g == gcd(x as nat, y as nat),
{
    if x == 0 {
        proof {
            lemma_gcd_symmetric(0, y as nat);
        }
        return y;
    }
    if y == 0 {
        return x;
    }
    proof {
        lemma_trailing_zeros(x);
        lemma_trailing_zeros(y);
    }
    let tx: u32 = x.trailing_zeros();
    let ty: u32 = y.trailing_zeros();
    let shift: u32 = if tx <= ty {
        tx
    } else {
        ty
    };
    let mut a: u64 = x >> (tx as u64);
    let mut b: u64 = y;
    let ghost target = gcd(a as nat, y as nat);
    proof {
        let y1 = y >> (ty as u64);
        lemma_gcd_twos(a as nat, y1 as nat, tx as nat, ty as nat, shift as nat);
        lemma_gcd_odd_pow2(a as nat, y1 as nat, ty as nat);
        assert(gcd(x as nat, y as nat) == pow2(shift as nat) * target);
    }
    loop
        invariant
            a % 2 == 1,
            b > 0,
            gcd(a as nat, b as nat) == target,
            gcd(x as nat, y as nat) == pow2(shift as nat) * target,
            shift < 64,
            x > 0,
        decreases a + b,
    {
        proof {
            lemma_trailing_zeros(b);
            let t = u64_trailing_zeros(b);
            let b1 = b >> (t as u64);
            lemma_gcd_odd_pow2(a as nat, b1 as nat, t as nat);
            lemma_pow2_pos(t as nat);
            assert(b1 <= b) by (nonlinear_arith)
                requires
                    b == pow2(t as nat) * b1,
                    pow2(t as nat) >= 1,
            ;
        }
        b = b >> (b.trailing_zeros() as u64);
        if a > b {
            let t: u64 = a;
            a = b;
            b = t;
            proof {
                lemma_gcd_symmetric(a as nat, b as nat);
            }
        }
        proof {
            lemma_gcd_sub(a as nat, b as nat);
        }
        b = b - a;
        if b == 0 {
            proof {
                // the gcd divides x, so shifting it back fits a word
                lemma_gcd_divides(x as nat, y as nat);
                let g = gcd(x as nat, y as nat);
                let k = choose|k: nat| x as nat == #[trigger] times(g, k);
                assert(g <= x) by (nonlinear_arith)
                    requires
                        x == g * k,
                        x > 0,
                        k >= 0,
                        g >= 0,
                ;
                assert(pow2(shift as nat) * target == a * pow2(shift as nat)) by (nonlinear_arith)
                    requires
                        target == a,
                ;
                vstd::bits::lemma_u64_shl_is_mul(a, shift as u64);
            }
            return a << (shift as u64);
        }
    }
}

/// The 2-adic valuation of a nonzero magnitude, as whole limbs and remaining bits.
pub(crate) fn trailing_zeros_mag(m: &[u64]) -> (r: (usize, u32))
    requires
        limbs_val(m@) > 0,
    ensures
        r.1 < 64,
        limbs_val(m@) == pow2((64 * r.0 + r.1) as nat) * (limbs_val(m@) / pow2(
            (64 * r.0 + r.1) as nat,
        )),
        (limbs_val(m@) / pow2((64 * r.0 + r.1) as nat)) % 2 == 1,
{
    let mut i: usize = 0;
    while i < m.len() && m[i] == 0
        invariant
            i <= m@.len(),
            forall|k: int| 0 <= k < i ==> m@[k] == 0,
        decreases m@.len() - i,
    {
        i = i + 1;
    }
    proof {
        if i == m@.len() {
            lemma_val_zeros(m@);
        }
        lemma_trailing_zeros(m@[i as int]);
    }
    let t: u32 = m[i].trailing_zeros();
    proof {
        let x = m@[i as int];
        let o = (x >> (t as u64)) as int;
        let v = limbs_val(m@) as int;
        lemma_val_split(m@, i as int);
        lemma_val_zeros(m@.take(i as int));
        lemma_val_skip(m@, i as int);
        lemma_bpow_pow2(i as nat);
        lemma_pow2_adds((64 * i) as nat, t as nat);
        lemma_pow2_adds(t as nat, (63 - t) as nat);
        lemma_pow2_64();
        lemma_pow2_pos((64 * i + t) as nat);
        let p = bpow(i as nat) as int;
        let f = pow2(t as nat) as int;
        let g = pow2((63 - t) as nat) as int;
        let h = limbs_val(m@.skip(i + 1)) as int;
        let k = pow2((64 * i + t) as nat) as int;
        assert(v == k * (o + 2 * (g * h))) by (nonlinear_arith)
            requires
                v == p * (f * o + 0x1_0000_0000_0000_0000 * h),
                f * g == 0x8000_0000_0000_0000,
                k == p * f,
        ;
        let q = o + 2 * (g * h);
        assert(q * k + 0 == v) by (nonlinear_arith)
            requires
                v == k * q,
        ;
        vstd::arithmetic::div_mod::lemma_fundamental_div_mod_converse(v, k, q, 0);
    }
    (i, t)
}

/// Stein's algorithm on two nonzero canonical magnitudes: `a` becomes their gcd.
pub(crate) fn binary_gcd(a: &mut Vec<u64>, other: Vec<u64>)
    requires
        canonical(old(a)@),
        canonical(other@),
        old(a)@.len() > 0,
        other@.len() > 0,
    ensures
        canonical(final(a)@),
        limbs_val(final(a)@) == gcd(limbs_val(old(a)@), limbs_val(other@)),
{
    let mut b: Vec<u64> = other;
    let ghost vb = limbs_val(b@);
    proof {
        lemma_canonical_lower(a@);
        lemma_canonical_lower(b@);
    }
    let (la, ta): (usize, u32) = trailing_zeros_mag(a.as_slice());
    let (lb, tb): (usize, u32) = trailing_zeros_mag(b.as_slice());
    let (ls, ts): (usize, u32) = if la < lb || (la == lb && ta <= tb) {
        (la, ta)
    } else {
        (lb, tb)
    };
    let ghost ka = (64 * la + ta) as nat;
    let ghost kb = (64 * lb + tb) as nat;
    let ghost ks = (64 * ls + ts) as nat;
    shr_bits(a, la, ta);
    let ghost target = gcd(limbs_val(a@), vb);
    proof {
        let xa = limbs_val(a@);
        let xb = vb / pow2(kb);
        lemma_gcd_twos(xa, xb, ka, kb, ks);
        lemma_gcd_odd_pow2(xa, xb, kb);
    }
    loop
        invariant_except_break
            limbs_val(b@) > 0,
        invariant
            canonical(a@),
            canonical(b@),
            limbs_val(a@) % 2 == 1,
            gcd(limbs_val(a@), limbs_val(b@)) == target,
        ensures
            limbs_val(b@) == 0,
        decreases limbs_val(a@) + limbs_val(b@),
    {
        let ghost b0 = limbs_val(b@);
        let ghost a0 = limbs_val(a@);
        let (l, t): (usize, u32) = trailing_zeros_mag(b.as_slice());
        shr_bits(&mut b, l, t);
        proof {
            let k = (64 * l + t) as nat;
            let b1 = limbs_val(b@);
            lemma_gcd_odd_pow2(a0, b1, k);
            lemma_pow2_pos(k);
            assert(b1 <= b0) by (nonlinear_arith)
                requires
                    b0 == pow2(k) * b1,
                    pow2(k) >= 1,
            ;
        }
        match relate_mag(a.as_slice(), b.as_slice()) {
            Relation::Greater => {
                std::mem::swap(a, &mut b);
                proof {
                    lemma_gcd_symmetric(limbs_val(a@), limbs_val(b@));
                }
            },
            _ => {},
        }
        proof {
            lemma_gcd_sub(limbs_val(a@), limbs_val(b@));
        }
        sub_mag_inplace(&mut b, a.as_slice());
        if b.len() == 0 {
            break ;
        }
        proof {
            lemma_canonical_lower(b@);
        }
    }
    proof {
        assert(limbs_val(a@) == target);
        assert(limbs_val(a@) * pow2(ks) == pow2(ks) * target) by (nonlinear_arith)
            requires
                limbs_val(a@) == target,
        ;
    }
    shl_bits(a, ls, ts);
}

} // verus!
