//! Bit shifts of magnitudes, bit length and trailing zeros.
use super::addsub::{lemma_low_val_all, lemma_low_val_step, lemma_low_val_zero, lemma_take_update, low_val};
use super::limbs::{
    bpow, canonical, lemma_bpow_pos, lemma_val_bound, lemma_val_concat, lemma_val_push,
    lemma_val_skip, lemma_val_split, lemma_val_zeros, limbs_val, strip,
};
use super::mul::push_zeros;
use super::word::{lemma_pow2_64, shl_word, shr_word};
use vstd::arithmetic::power2::{lemma2_to64, lemma_pow2_adds, lemma_pow2_pos, lemma_pow2_unfold, pow2};
use vstd::prelude::*;
use vstd::std_specs::bits::{axiom_u64_leading_zeros, u64_leading_zeros};

verus! {

/// Limb weights are powers of two.
pub proof fn lemma_bpow_pow2(n: nat)
    ensures
        bpow(n) == pow2(64 * n),
    decreases n,
{
    if n == 0 {
        lemma2_to64();
    } else {
        lemma_bpow_pow2((n - 1) as nat);
        lemma_pow2_adds(64, (64 * (n - 1)) as nat);
        lemma_pow2_64();
        assert((64 + 64 * (n - 1)) as nat == 64 * n);
    }
}

/// `v = v * 2^s` for less than a word of bits, within `v`'s width; the bits that leave it are
/// returned.
pub(crate) fn shl_limbs(v: &mut Vec<u64>, s: u32) -> (carry: u64)
    requires
        s < 64,
    ensures
        final(v)@.len() == old(v)@.len(),
        limbs_val(final(v)@) + bpow(old(v)@.len()) * carry == limbs_val(old(v)@) * pow2(s as nat),
        carry < pow2(s as nat),
{
    let ghost v0 = v@;
    let n: usize = v.len();
    let mut carry: u64 = 0;
    let mut i: usize = 0;
    proof {
        lemma_pow2_pos(s as nat);
        lemma_low_val_zero(v0);
        assert(v@.take(0).len() == 0);
        assert(0 * pow2(s as nat) == 0);
        assert(bpow(0) * 0 == 0) by (nonlinear_arith);
    }
    while i < n
        invariant
            s < 64,
            n == v@.len() == v0.len(),
            i <= n,
            carry < pow2(s as nat),
            limbs_val(v@.take(i as int)) + bpow(i as nat) * carry == low_val(v0, i as nat) * pow2(
                s as nat,
            ),
            forall|k: int| i <= k < n ==> v@[k] == v0[k],
        decreases n - i,
    {
        let (lo, hi): (u64, u64) = shl_word(v[i], s, carry);
        proof {
            lemma_low_val_step(v0, i as nat);
            lemma_take_update(v@, i as int, lo);
            let p = bpow(i as nat) as int;
            let f = pow2(s as nat) as int;
            let w = low_val(v0, i as nat) as int;
            let x = v0[i as int] as int;
            let cin = carry as int;
            let cout = hi as int;
            assert(p * lo + (0x1_0000_0000_0000_0000 * p) * cout == p * (x * f) + p * cin)
                by (nonlinear_arith)
                requires
                    lo + 0x1_0000_0000_0000_0000 * cout == x * f + cin,
            ;
            assert((w + p * x) * f == w * f + p * (x * f)) by (nonlinear_arith);
        }
        v.set(i, lo);
        carry = hi;
        i = i + 1;
    }
    proof {
        lemma_low_val_all(v0, n as nat);
        assert(v@.take(n as int) =~= v@);
    }
    carry
}

/// `v = floor(v / 2^s)` for less than a word of bits; the bits shifted out are returned.
pub(crate) fn shr_limbs(v: &mut Vec<u64>, s: u32) -> (rem: u64)
    requires
        s < 64,
    ensures
        final(v)@.len() == old(v)@.len(),
        limbs_val(old(v)@) == limbs_val(final(v)@) * pow2(s as nat) + rem,
        rem < pow2(s as nat),
{
    let ghost v0 = v@;
    let n: usize = v.len();
    let mut rem: u64 = 0;
    let mut i: usize = n;
    proof {
        lemma_pow2_pos(s as nat);
        assert(v@.skip(n as int).len() == 0);
        assert(0 * pow2(s as nat) == 0);
    }
    while i > 0
        invariant
            s < 64,
            n == v@.len() == v0.len(),
            i <= n,
            rem < pow2(s as nat),
            limbs_val(v0.skip(i as int)) == limbs_val(v@.skip(i as int)) * pow2(s as nat) + rem,
            forall|k: int| 0 <= k < i ==> v@[k] == v0[k],
        decreases i,
    {
        i = i - 1;
        let ghost v1 = v@;
        let (q, r): (u64, u64) = shr_word(v[i], s, rem);
        v.set(i, q);
        proof {
            lemma_val_skip(v0, i as int);
            lemma_val_skip(v@, i as int);
            assert(v@.skip(i + 1) =~= v1.skip(i + 1));
            let f = pow2(s as nat) as int;
            let h = limbs_val(v1.skip(i + 1)) as int;
            assert((q + 0x1_0000_0000_0000_0000 * h) * f == q * f + 0x1_0000_0000_0000_0000 * (h
                * f)) by (nonlinear_arith);
        }
        rem = r;
    }
    proof {
        assert(v0.skip(0) =~= v0);
        assert(v@.skip(0) =~= v@);
    }
    rem
}

/// `m >>= 64 * limbs + bits`.
pub(crate) fn shr_bits(m: &mut Vec<u64>, limbs: usize, bits: u32)
    requires
        bits < 64,
    ensures
        canonical(final(m)@),
        limbs_val(final(m)@) == limbs_val(old(m)@) / pow2((64 * limbs + bits) as nat),
{
    let ghost m0 = m@;
    proof {
        lemma_bpow_pow2(limbs as nat);
        lemma_pow2_adds((64 * limbs) as nat, bits as nat);
        lemma_pow2_pos((64 * limbs) as nat);
        lemma_pow2_pos(bits as nat);
    }
    let ghost p = bpow(limbs as nat) as int;
    let ghost f = pow2(bits as nat) as int;
    if limbs >= m.len() {
        m.clear();
        proof {
            lemma_val_bound(m0);
            super::limbs::lemma_bpow_mono(m0.len(), limbs as nat);
            let v = limbs_val(m0) as int;
            assert(v < p * f) by (nonlinear_arith)
                requires
                    0 <= v < p,
                    f >= 1,
            ;
            vstd::arithmetic::div_mod::lemma_basic_div(v, p * f);
        }
        return;
    }
    let mut high: Vec<u64> = m.split_off(limbs);
    let ghost h0 = high@;
    let rem: u64 = shr_limbs(&mut high, bits);
    proof {
        lemma_val_split(m0, limbs as int);
        assert(m0.skip(limbs as int) =~= h0);
        let lo = limbs_val(m0.take(limbs as int)) as int;
        lemma_val_bound(m0.take(limbs as int));
        let q = limbs_val(high@) as int;
        let v = limbs_val(m0) as int;
        let r = rem as int;
        let low = lo + p * r;
        assert(p * (q * f + r) == q * (p * f) + p * r) by (nonlinear_arith);
        assert(v == q * (p * f) + low);
        assert(low < p * f) by (nonlinear_arith)
            requires
                low == lo + p * r,
                lo < p,
                r <= f - 1,
                p >= 0,
        ;
        assert(low >= 0) by (nonlinear_arith)
            requires
                low == lo + p * r,
                lo >= 0,
                p >= 0,
                r >= 0,
        ;
        vstd::arithmetic::div_mod::lemma_fundamental_div_mod_converse(v, p * f, q, low);
    }
    strip(&mut high);
    *m = high;
}

/// `m <<= 64 * limbs + bits`.
pub(crate) fn shl_bits(m: &mut Vec<u64>, limbs: usize, bits: u32)
    requires
        bits < 64,
    ensures
        canonical(final(m)@),
        limbs_val(final(m)@) == limbs_val(old(m)@) * pow2((64 * limbs + bits) as nat),
{
    let ghost m0 = m@;
    proof {
        lemma_bpow_pow2(limbs as nat);
        lemma_pow2_adds((64 * limbs) as nat, bits as nat);
    }
    let carry: u64 = shl_limbs(m, bits);
    let ghost m1 = m@;
    if carry != 0 {
        m.push(carry);
    }
    proof {
        lemma_val_push(m1, carry);
        assert(bpow(m1.len()) * 0 == 0) by (nonlinear_arith);
    }
    let ghost m2 = m@;
    let mut out: Vec<u64> = Vec::new();
    push_zeros(&mut out, limbs);
    let ghost z = out@;
    out.append(m);
    proof {
        lemma_val_zeros(z);
        lemma_val_concat(z, m2);
        let p = bpow(limbs as nat) as int;
        let f = pow2(bits as nat) as int;
        let v = limbs_val(m0) as int;
        assert(p * (v * f) == v * (p * f)) by (nonlinear_arith);
    }
    strip(&mut out);
    *m = out;
}

/// The leading zero count of a nonzero word places its top bit.
pub proof fn lemma_leading_zeros(d: u64)
    requires
        d != 0,
    ensures
        u64_leading_zeros(d) < 64,
        pow2((63 - u64_leading_zeros(d)) as nat) <= d < pow2((64 - u64_leading_zeros(d)) as nat),
        0x8000_0000_0000_0000 <= d * pow2(u64_leading_zeros(d) as nat) < 0x1_0000_0000_0000_0000,
{
    axiom_u64_leading_zeros(d);
    let s = u64_leading_zeros(d);
    let t: u64 = (63 - s) as u64;
    vstd::bits::lemma_u64_shr_is_div(d, t);
    lemma_pow2_pos(t as nat);
    lemma_pow2_64();
    assert((d >> t) & 1u64 != 0 ==> (d >> t) >= 1) by (bit_vector);
    let p = pow2(t as nat) as int;
    vstd::arithmetic::div_mod::lemma_fundamental_div_mod(d as int, p);
    vstd::arithmetic::div_mod::lemma_mod_bound(d as int, p);
    assert(d >= p) by (nonlinear_arith)
        requires
            d == p * (d as int / p) + d as int % p,
            d as int / p >= 1,
            d as int % p >= 0,
            p >= 1,
    ;
    if s > 0 {
        let t2: u64 = (64 - s) as u64;
        vstd::bits::lemma_u64_shr_is_div(d, t2);
        lemma_pow2_pos(t2 as nat);
        let p2 = pow2(t2 as nat) as int;
        vstd::arithmetic::div_mod::lemma_fundamental_div_mod(d as int, p2);
        vstd::arithmetic::div_mod::lemma_mod_bound(d as int, p2);
        assert(d >> t2 == 0);
        assert(p2 * 0 == 0) by (nonlinear_arith);
        assert(d < p2);
    }
    lemma_pow2_adds((63 - s) as nat, s as nat);
    lemma_pow2_adds((64 - s) as nat, s as nat);
    let f = pow2(s as nat) as int;
    lemma_pow2_pos(s as nat);
    let hi = pow2((64 - s) as nat) as int;
    assert(p * f <= d * f && d * f < hi * f) by (nonlinear_arith)
        requires
            p <= d < hi,
            f >= 1,
    ;
}

/// The number of bits of `v`: `floor(log2 v) + 1`, and `0` for zero.
pub open spec fn bit_length(v: nat) -> nat
    decreases v,
{
    if v == 0 {
        0
    } else {
        1 + bit_length(v / 2)
    }
}

/// The bit length brackets the value between powers of two.
pub proof fn lemma_bit_length(v: nat)
    ensures
        v < pow2(bit_length(v)),
        v > 0 ==> bit_length(v) > 0 && pow2((bit_length(v) - 1) as nat) <= v,
    decreases v,
{
    lemma2_to64();
    if v > 0 {
        lemma_bit_length(v / 2);
        let k = bit_length(v / 2);
        lemma_pow2_unfold(k + 1);
        if v / 2 > 0 {
            lemma_pow2_unfold(k);
        }
    }
}

/// The bit length is determined by the powers of two around the value.
pub proof fn lemma_bit_length_unique(v: nat, b: nat)
    requires
        v > 0,
        b > 0,
        v < pow2(b),
        pow2((b - 1) as nat) <= v,
    ensures
        bit_length(v) == b,
{
    lemma_bit_length(v);
    let k = bit_length(v);
    if k < b {
        if k < b - 1 {
            vstd::arithmetic::power2::lemma_pow2_strictly_increases(k, (b - 1) as nat);
        }
    }
    if b < k {
        if b < k - 1 {
            vstd::arithmetic::power2::lemma_pow2_strictly_increases(b, (k - 1) as nat);
        }
    }
}

/// Bit length of a canonical magnitude, read off its top limb.
pub(crate) fn bitlen_mag(m: &[u64]) -> (r: u128)
    requires
        canonical(m@),
    ensures
        r == bit_length(limbs_val(m@)),
        r <= 64 * m@.len(),
{
    if m.len() == 0 {
        return 0;
    }
    let n: usize = m.len();
    let top: u64 = m[n - 1];
    let lz: u32 = top.leading_zeros();
    proof {
        lemma_leading_zeros(top);
        let b = (64 * n - lz) as nat;
        let p = bpow((n - 1) as nat) as int;
        lemma_val_split(m@, n - 1);
        lemma_val_skip(m@, n - 1);
        assert(m@.skip(n as int).len() == 0);
        lemma_val_bound(m@.take(n - 1));
        lemma_bpow_pow2((n - 1) as nat);
        lemma_bpow_pos((n - 1) as nat);
        lemma_pow2_adds((64 * (n - 1)) as nat, (64 - lz) as nat);
        lemma_pow2_adds((64 * (n - 1)) as nat, (63 - lz) as nat);
        assert((64 * (n - 1) + (64 - lz)) as nat == b);
        assert((64 * (n - 1) + (63 - lz)) as nat == (b - 1) as nat);
        let low = limbs_val(m@.take(n - 1)) as int;
        let t = top as int;
        let hi = pow2((64 - lz) as nat) as int;
        let lo = pow2((63 - lz) as nat) as int;
        lemma_pow2_pos((63 - lz) as nat);
        assert(low + p * t < p * hi) by (nonlinear_arith)
            requires
                low < p,
                t + 1 <= hi,
                p >= 0,
        ;
        assert(p * lo <= low + p * t) by (nonlinear_arith)
            requires
                low >= 0,
                lo <= t,
                p >= 0,
        ;
        assert(p * lo >= 1) by (nonlinear_arith)
            requires
                p >= 1,
                lo >= 1,
        ;
        lemma_bit_length_unique(limbs_val(m@), b);
    }
    n as u128 * 64 - lz as u128
}

} // verus!
