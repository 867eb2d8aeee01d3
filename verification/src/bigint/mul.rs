//! Multiplication of magnitudes: schoolbook, Karatsuba, and the single-word multiply-add.
use super::addsub::{add_mag, lemma_take_update, low_val, lemma_low_val_all, lemma_low_val_step, lemma_low_val_zero, sub_mag};
use super::limbs::{
    bpow, canonical, hi64, lemma_bpow_add, lemma_bpow_mono, lemma_bpow_pos, lemma_canonical_lower,
    lemma_val_bound, lemma_val_drop_zero, lemma_val_push, lemma_val_single, lemma_val_split,
    lemma_val_take, lemma_val_update, lemma_val_zeros, limbs_val, lo64, strip,
};
use vstd::arithmetic::power::{lemma_pow_adds, lemma_pow_multiplies, pow};
use vstd::prelude::*;

verus! {

/// Below this many limbs in the smaller operand, schoolbook multiplication is used.
pub const KARATSUBA_THRESHOLD: usize = 40;

/// Append `n` zero limbs.
pub(crate) fn push_zeros(v: &mut Vec<u64>, n: usize)
    ensures
        final(v)@.len() == old(v)@.len() + n,
        final(v)@.take(old(v)@.len() as int) == old(v)@,
        forall|k: int| old(v)@.len() <= k < final(v)@.len() ==> final(v)@[k] == 0,
{
    let mut i: usize = 0;
    while i < n
        invariant
            i <= n,
            v@.len() == old(v)@.len() + i,
            v@.take(old(v)@.len() as int) =~= old(v)@,
            forall|k: int| old(v)@.len() <= k < v@.len() ==> v@[k] == 0,
        decreases n - i,
    {
        v.push(0);
        i = i + 1;
    }
}

/// `a * b + c + d` over words always fits a double word.
pub(crate) fn mul_add_add(a: u64, b: u64, c: u64, d: u64) -> (r: (u64, u64))
    ensures
        r.0 + 0x1_0000_0000_0000_0000 * r.1 == a * b + c + d,
{
    assert(a * b <= 0xffff_ffff_ffff_ffff * 0xffff_ffff_ffff_ffff) by (nonlinear_arith)
        requires
            a <= 0xffff_ffff_ffff_ffff,
            b <= 0xffff_ffff_ffff_ffff,
    ;
    let t: u128 = (a as u128) * (b as u128) + c as u128 + d as u128;
    (lo64(t), hi64(t))
}

/// One row of the schoolbook product: `out += av * b * 2^(64 i)`, where `out` is still zero from
/// index `i + b.len()` on.
fn mul_row(out: &mut Vec<u64>, i: usize, av: u64, b: &[u64])
    requires
        i + b@.len() < old(out).len(),
        forall|k: int| i + b@.len() <= k < old(out)@.len() ==> old(out)@[k] == 0,
    ensures
        final(out)@.len() == old(out)@.len(),
        limbs_val(final(out)@) == limbs_val(old(out)@) + bpow(i as nat) * (av * limbs_val(b@)),
        forall|k: int| i + b@.len() < k < final(out)@.len() ==> final(out)@[k] == 0,
{
    let m: usize = b.len();
    let mut carry: u64 = 0;
    let mut j: usize = 0;
    proof {
        assert(b@.take(0).len() == 0);
        let p = bpow(i as nat) as int;
        assert(bpow((i + 0) as nat) * 0 == 0) by (nonlinear_arith);
        assert(p * (av * 0) == 0) by (nonlinear_arith);
    }
    while j < m
        invariant
            j <= m,
            m == b@.len(),
            i + m < out.len(),
            out@.len() == old(out)@.len(),
            limbs_val(out@) + bpow((i + j) as nat) * carry == limbs_val(old(out)@) + bpow(i as nat)
                * (av * limbs_val(b@.take(j as int))),
            forall|k: int| i + m <= k < out@.len() ==> out@[k] == 0,
        decreases m - j,
    {
        let (s, c): (u64, u64) = mul_add_add(av, b[j], out[i + j], carry);
        proof {
            lemma_val_update(out@, i + j, s);
            lemma_val_take(b@, j as int);
            lemma_bpow_add(i as nat, j as nat);
            let p = bpow(i as nat) as int;
            let q = bpow(j as nat) as int;
            let pq = bpow((i + j) as nat) as int;
            let bv = b@[j as int] as int;
            let w = limbs_val(b@.take(j as int)) as int;
            let o = out@[i + j] as int;
            let cin = carry as int;
            let cout = c as int;
            let a = av as int;
            assert(pq * (s - o) + (0x1_0000_0000_0000_0000 * pq) * cout == pq * cin + pq * (a * bv))
                by (nonlinear_arith)
                requires
                    s + 0x1_0000_0000_0000_0000 * cout == a * bv + o + cin,
            ;
            assert(p * (a * (w + q * bv)) == p * (a * w) + pq * (a * bv)) by (nonlinear_arith)
                requires
                    pq == p * q,
            ;
        }
        out.set(i + j, s);
        carry = c;
        j = j + 1;
    }
    proof {
        lemma_val_update(out@, i + m, carry);
        assert(b@.take(m as int) =~= b@);
    }
    out.set(i + m, carry);
}

/// Schoolbook `a * b` accumulated into `out`'s buffer.
pub(crate) fn mul_schoolbook_into(a: &[u64], b: &[u64], out: &mut Vec<u64>)
    ensures
        limbs_val(final(out)@) == limbs_val(a@) * limbs_val(b@),
        canonical(final(out)@),
{
    out.clear();
    push_zeros(out, a.len());
    push_zeros(out, b.len());
    let n: usize = a.len();
    let mut i: usize = 0;
    proof {
        assert forall|k: int| 0 <= k < out@.len() implies out@[k] == 0 by {
            if k < n {
                assert(out@.take(n as int)[k] == out@[k]);
            }
        }
        lemma_val_zeros(out@);
        assert(a@.take(0).len() == 0);
        assert(0 * limbs_val(b@) == 0) by (nonlinear_arith);
    }
    while i < n
        invariant
            n == a@.len(),
            i <= n,
            out@.len() == n + b@.len(),
            limbs_val(out@) == limbs_val(a@.take(i as int)) * limbs_val(b@),
            forall|k: int| i + b@.len() <= k < out@.len() ==> out@[k] == 0,
        decreases n - i,
    {
        mul_row(out, i, a[i], b);
        proof {
            lemma_val_take(a@, i as int);
            let p = bpow(i as nat) as int;
            let w = limbs_val(a@.take(i as int)) as int;
            let v = limbs_val(b@) as int;
            let x = a@[i as int] as int;
            assert((w + p * x) * v == w * v + p * (x * v)) by (nonlinear_arith);
        }
        i = i + 1;
    }
    proof {
        assert(a@.take(n as int) =~= a@);
    }
    strip(out);
}

/// Schoolbook `a * b` in a fresh buffer.
pub(crate) fn mul_schoolbook(a: &[u64], b: &[u64]) -> (out: Vec<u64>)
    ensures
        limbs_val(out@) == limbs_val(a@) * limbs_val(b@),
        canonical(out@),
{
    let mut out: Vec<u64> = Vec::new();
    mul_schoolbook_into(a, b, &mut out);
    out
}

/// `acc += addend * 2^(64 offset)` in place, where the sum fits `acc`'s width.
fn add_into_at(acc: &mut Vec<u64>, addend: &[u64], offset: usize)
    requires
        canonical(addend@),
        limbs_val(old(acc)@) + bpow(offset as nat) * limbs_val(addend@) < bpow(old(acc)@.len()),
    ensures
        final(acc)@.len() == old(acc)@.len(),
        limbs_val(final(acc)@) == limbs_val(old(acc)@) + bpow(offset as nat) * limbs_val(addend@),
{
    let n: usize = addend.len();
    if n == 0 {
        proof {
            assert(bpow(offset as nat) * 0 == 0) by (nonlinear_arith);
        }
        return;
    }
    proof {
        lemma_canonical_lower(addend@);
        lemma_bpow_add(offset as nat, (n - 1) as nat);
        lemma_bpow_pos(offset as nat);
        let p = bpow(offset as nat);
        let q = bpow((n - 1) as nat);
        let v = limbs_val(addend@);
        assert(p * q <= p * v) by (nonlinear_arith)
            requires
                q <= v,
                p >= 0,
        ;
        if offset + n > acc.len() {
            lemma_bpow_mono(acc@.len(), (offset + n - 1) as nat);
        }
        assert(addend@.take(0).len() == 0);
        assert(p * 0 == 0) by (nonlinear_arith);
        assert(bpow((offset + 0) as nat) * 0 == 0) by (nonlinear_arith);
    }
    let mut carry: u64 = 0;
    let mut i: usize = 0;
    let ghost total = limbs_val(acc@) + bpow(offset as nat) * limbs_val(addend@);
    while i < n
        invariant
            i <= n,
            n == addend@.len(),
            offset + n <= acc.len(),
            acc@.len() == old(acc)@.len(),
            carry <= 1,
            limbs_val(acc@) + bpow((offset + i) as nat) * carry == limbs_val(old(acc)@) + bpow(
                offset as nat,
            ) * limbs_val(addend@.take(i as int)),
        decreases n - i,
    {
        let (s, c): (u64, u64) = super::limbs::add_carry(acc[offset + i], addend[i], carry);
        proof {
            lemma_val_update(acc@, offset + i, s);
            lemma_val_take(addend@, i as int);
            lemma_bpow_add(offset as nat, i as nat);
            let p = bpow(offset as nat) as int;
            let q = bpow(i as nat) as int;
            let pq = bpow((offset + i) as nat) as int;
            let x = addend@[i as int] as int;
            let w = limbs_val(addend@.take(i as int)) as int;
            let o = acc@[offset + i] as int;
            let cin = carry as int;
            let cout = c as int;
            assert(pq * (s - o) + (0x1_0000_0000_0000_0000 * pq) * cout == pq * cin + pq * x)
                by (nonlinear_arith)
                requires
                    s + 0x1_0000_0000_0000_0000 * cout == x + o + cin,
            ;
            assert(p * (w + q * x) == p * w + pq * x) by (nonlinear_arith)
                requires
                    pq == p * q,
            ;
        }
        acc.set(offset + i, s);
        carry = c;
        i = i + 1;
    }
    proof {
        assert(addend@.take(n as int) =~= addend@);
    }
    let mut j: usize = offset + n;
    while carry != 0
        invariant
            carry <= 1,
            j <= acc.len(),
            acc@.len() == old(acc)@.len(),
            limbs_val(acc@) + bpow(j as nat) * carry == total,
            total < bpow(acc@.len()),
        decreases acc@.len() - j + carry,
    {
        proof {
            if j == acc@.len() {
                assert(bpow(j as nat) * 1 == bpow(j as nat)) by (nonlinear_arith);
            }
        }
        let (s, c): (u64, u64) = super::limbs::add_carry(acc[j], 0, carry);
        proof {
            lemma_val_update(acc@, j as int, s);
            let pq = bpow(j as nat) as int;
            let o = acc@[j as int] as int;
            let cin = carry as int;
            let cout = c as int;
            assert(pq * (s - o) + (0x1_0000_0000_0000_0000 * pq) * cout == pq * cin)
                by (nonlinear_arith)
                requires
                    s + 0x1_0000_0000_0000_0000 * cout == o + cin,
            ;
        }
        acc.set(j, s);
        carry = c;
        j = j + 1;
    }
    proof {
        assert(bpow(j as nat) * 0 == 0) by (nonlinear_arith);
    }
}

/// `a * b` over magnitudes: schoolbook below [`KARATSUBA_THRESHOLD`] limbs, Karatsuba above it.
pub(crate) fn mul_mag(a: &[u64], b: &[u64]) -> (out: Vec<u64>)
    ensures
        limbs_val(out@) == limbs_val(a@) * limbs_val(b@),
        canonical(out@),
    decreases a@.len() + b@.len(), 1int,
{
    if a.len() == 0 || b.len() == 0 {
        proof {
            assert(0 * limbs_val(b@) == 0) by (nonlinear_arith);
            assert(limbs_val(a@) * 0 == 0) by (nonlinear_arith);
        }
        return Vec::new();
    }
    if a.len() < KARATSUBA_THRESHOLD || b.len() < KARATSUBA_THRESHOLD {
        mul_schoolbook(a, b)
    } else {
        mul_karatsuba(a, b)
    }
}

/// Splitting at `k` limbs, also when the operand is no longer than `k`.
proof fn lemma_split_at(s: Seq<u64>, k: int, c: int)
    requires
        0 <= k,
        c == (if k <= s.len() { k } else { s.len() as int }),
    ensures
        limbs_val(s) == limbs_val(s.take(c)) + bpow(k as nat) * limbs_val(s.skip(c)),
{
    lemma_val_split(s, c);
    if c < k {
        assert(limbs_val(s.skip(c)) == 0);
        assert(bpow(k as nat) * 0 == 0) by (nonlinear_arith);
        assert(bpow(c as nat) * 0 == 0) by (nonlinear_arith);
    }
}

/// The product of two operands split at weight `p`.
proof fn lemma_karatsuba_identity(x0: int, x1: int, y0: int, y1: int, p: int)
    ensures
        (x0 + p * x1) * (y0 + p * y1) == x0 * y0 + p * (x0 * y1 + x1 * y0) + (p * p) * (x1 * y1),
{
    let u = p * x1;
    let v = p * y1;
    assert((x0 + u) * (y0 + v) == x0 * y0 + x0 * v + u * y0 + u * v) by (nonlinear_arith);
    assert(x0 * v == p * (x0 * y1)) by (nonlinear_arith)
        requires
            v == p * y1,
    ;
    assert(u * y0 == p * (x1 * y0)) by (nonlinear_arith)
        requires
            u == p * x1,
    ;
    assert(u * v == (p * p) * (x1 * y1)) by (nonlinear_arith)
        requires
            u == p * x1,
            v == p * y1,
    ;
    assert(p * (x0 * y1 + x1 * y0) == p * (x0 * y1) + p * (x1 * y0)) by (nonlinear_arith);
}

/// Karatsuba `a * b`: with `a = a1 B^k + a0` and `b = b1 B^k + b0`, the product is
/// `z2 B^2k + z1 B^k + z0` for `z0 = a0 b0`, `z2 = a1 b1`, `z1 = (a0 + a1)(b0 + b1) - z0 - z2`.
fn mul_karatsuba(a: &[u64], b: &[u64]) -> (out: Vec<u64>)
    requires
        a@.len() >= KARATSUBA_THRESHOLD,
        b@.len() >= KARATSUBA_THRESHOLD,
    ensures
        limbs_val(out@) == limbs_val(a@) * limbs_val(b@),
        canonical(out@),
    decreases a@.len() + b@.len(), 0int,
{
    let mut out: Vec<u64> = Vec::new();
    push_zeros(&mut out, a.len());
    push_zeros(&mut out, b.len());
    assert(a@.len() + b@.len() == out.len());
    proof {
        assert forall|k: int| 0 <= k < out@.len() implies out@[k] == 0 by {
            if k < a@.len() {
                assert(out@.take(a@.len() as int)[k] == out@[k]);
            }
        }
        lemma_val_zeros(out@);
    }
    let wide: usize = if a.len() >= b.len() {
        a.len()
    } else {
        b.len()
    };
    let k: usize = wide / 2 + wide % 2;
    let ka: usize = if k <= a.len() {
        k
    } else {
        a.len()
    };
    let kb: usize = if k <= b.len() {
        k
    } else {
        b.len()
    };
    let (a0, a1) = a.split_at(ka);
    let (b0, b1) = b.split_at(kb);
    let z0: Vec<u64> = mul_mag(a0, b0);
    let z2: Vec<u64> = mul_mag(a1, b1);
    let sa: Vec<u64> = add_mag(a0, a1);
    let sb: Vec<u64> = add_mag(b0, b1);
    let z: Vec<u64> = mul_mag(sa.as_slice(), sb.as_slice());
    let ghost x0 = limbs_val(a0@) as int;
    let ghost x1 = limbs_val(a1@) as int;
    let ghost y0 = limbs_val(b0@) as int;
    let ghost y1 = limbs_val(b1@) as int;
    let ghost p = bpow(k as nat) as int;
    let ghost pp = bpow((2 * k) as nat) as int;
    let ghost cross = x0 * y1 + x1 * y0;
    proof {
        assert((x0 + x1) * (y0 + y1) == x0 * y0 + x1 * y1 + cross) by (nonlinear_arith)
            requires
                cross == x0 * y1 + x1 * y0,
        ;
        assert(x0 * y1 >= 0 && x1 * y0 >= 0) by (nonlinear_arith)
            requires
                x0 >= 0,
                x1 >= 0,
                y0 >= 0,
                y1 >= 0,
        ;
    }
    let t: Vec<u64> = sub_mag(z.as_slice(), z0.as_slice());
    let z1: Vec<u64> = sub_mag(t.as_slice(), z2.as_slice());
    proof {
        assert(limbs_val(z1@) == cross);
        assert(a@.subrange(0, ka as int) =~= a@.take(ka as int));
        assert(a@.subrange(ka as int, a@.len() as int) =~= a@.skip(ka as int));
        assert(b@.subrange(0, kb as int) =~= b@.take(kb as int));
        assert(b@.subrange(kb as int, b@.len() as int) =~= b@.skip(kb as int));
        lemma_split_at(a@, k as int, ka as int);
        lemma_split_at(b@, k as int, kb as int);
        lemma_bpow_add(k as nat, k as nat);
        assert((k as nat + k as nat) as nat == (2 * k) as nat);
        lemma_karatsuba_identity(x0, x1, y0, y1, p);
        lemma_val_bound(a@);
        lemma_val_bound(b@);
        lemma_bpow_add(a@.len(), b@.len());
        let va = limbs_val(a@) as int;
        let vb = limbs_val(b@) as int;
        let ba = bpow(a@.len()) as int;
        let bb = bpow(b@.len()) as int;
        assert(va * vb < ba * bb) by (nonlinear_arith)
            requires
                0 <= va < ba,
                0 <= vb < bb,
        ;
        assert(p * cross >= 0 && pp * (x1 * y1) >= 0 && x0 * y0 >= 0) by (nonlinear_arith)
            requires
                p >= 0,
                pp >= 0,
                cross >= 0,
                x1 >= 0,
                y1 >= 0,
                x0 >= 0,
                y0 >= 0,
        ;
        assert(bpow(0) * (x0 * y0) == x0 * y0) by (nonlinear_arith)
            requires
                bpow(0) == 1,
        ;
    }
    add_into_at(&mut out, z0.as_slice(), 0);
    add_into_at(&mut out, z1.as_slice(), k);
    add_into_at(&mut out, z2.as_slice(), 2 * k);
    strip(&mut out);
    out
}

/// `out = a * b` over magnitudes, reusing `out`'s buffer on the schoolbook path.
pub(crate) fn mul_mag_into(a: &[u64], b: &[u64], out: &mut Vec<u64>)
    ensures
        limbs_val(final(out)@) == limbs_val(a@) * limbs_val(b@),
        canonical(final(out)@),
{
    if a.len() == 0 || b.len() == 0 {
        proof {
            assert(0 * limbs_val(b@) == 0) by (nonlinear_arith);
            assert(limbs_val(a@) * 0 == 0) by (nonlinear_arith);
        }
        out.clear();
        return;
    }
    if a.len() < KARATSUBA_THRESHOLD || b.len() < KARATSUBA_THRESHOLD {
        mul_schoolbook_into(a, b, out);
    } else {
        *out = mul_karatsuba(a, b);
    }
}

/// `mag = mag * factor + addend` in place.
pub(crate) fn mul_add_u64_inplace(mag: &mut Vec<u64>, factor: u64, addend: u64)
    ensures
        limbs_val(final(mag)@) == limbs_val(old(mag)@) * factor + addend,
        canonical(old(mag)@) && factor > 0 ==> canonical(final(mag)@),
{
    let ghost m0 = mag@;
    let n: usize = mag.len();
    let mut carry: u64 = addend;
    let mut i: usize = 0;
    proof {
        lemma_low_val_zero(m0);
        assert(mag@.take(0).len() == 0);
        assert(0 * factor == 0);
        assert(bpow(0) * addend == addend) by (nonlinear_arith)
            requires
                bpow(0) == 1,
        ;
    }
    while i < n
        invariant
            n == mag@.len() == m0.len(),
            i <= n,
            limbs_val(mag@.take(i as int)) + bpow(i as nat) * carry == low_val(m0, i as nat)
                * factor + addend,
            forall|k: int| i <= k < n ==> mag@[k] == m0[k],
        decreases n - i,
    {
        let (s, c): (u64, u64) = mul_add_add(mag[i], factor, carry, 0);
        proof {
            lemma_low_val_step(m0, i as nat);
            lemma_take_update(mag@, i as int, s);
            let p = bpow(i as nat) as int;
            let w = low_val(m0, i as nat) as int;
            let x = m0[i as int] as int;
            let f = factor as int;
            let cin = carry as int;
            let cout = c as int;
            assert(p * s + (0x1_0000_0000_0000_0000 * p) * cout == p * (x * f) + p * cin)
                by (nonlinear_arith)
                requires
                    s + 0x1_0000_0000_0000_0000 * cout == x * f + cin,
            ;
            assert((w + p * x) * f == w * f + p * (x * f)) by (nonlinear_arith);
        }
        mag.set(i, s);
        carry = c;
        i = i + 1;
    }
    let ghost m1 = mag@;
    proof {
        lemma_low_val_all(m0, n as nat);
        assert(m1.take(n as int) =~= m1);
        lemma_val_push(m1, carry);
        assert(bpow(n as nat) * 0 == 0) by (nonlinear_arith);
        if canonical(m0) && factor > 0 && carry == 0 && n > 0 && m1.last() == 0 {
            lemma_val_drop_zero(m1);
            lemma_val_bound(m1.drop_last());
            lemma_canonical_lower(m0);
            assert(limbs_val(m0) * factor >= limbs_val(m0)) by (nonlinear_arith)
                requires
                    factor >= 1,
            ;
        }
    }
    if carry != 0 {
        mag.push(carry);
    }
}

/// `10^e` as a magnitude, by binary exponentiation.
pub(crate) fn pow10_mag(e: u64) -> (result: Vec<u64>)
    ensures
        limbs_val(result@) == pow(10, e as nat),
        canonical(result@),
{
    let mut result: Vec<u64> = Vec::new();
    result.push(1);
    let mut base: Vec<u64> = Vec::new();
    base.push(10);
    let mut left: u64 = e;
    proof {
        assert(result@ =~= seq![1u64]);
        assert(base@ =~= seq![10u64]);
        lemma_val_single(1);
        lemma_val_single(10);
        assert(1 * pow(10, e as nat) == pow(10, e as nat));
    }
    while left > 0
        invariant
            canonical(result@),
            canonical(base@),
            limbs_val(result@) * pow(limbs_val(base@) as int, left as nat) == pow(10, e as nat),
        decreases left,
    {
        let ghost b = limbs_val(base@) as int;
        let ghost r = limbs_val(result@) as int;
        let ghost h = (left / 2) as nat;
        proof {
            lemma_pow_multiplies(b, 2, h);
            lemma_pow_adds(b, 1, 1);
            vstd::arithmetic::power::lemma_pow1(b);
            assert(pow(b * b, h) == pow(b, 2 * h));
            if left % 2 == 1 {
                lemma_pow_adds(b, 2 * h, 1);
                assert(r * (pow(b, 2 * h) * b) == (r * b) * pow(b, 2 * h)) by (nonlinear_arith);
            }
        }
        if left % 2 == 1 {
            result = mul_mag(result.as_slice(), base.as_slice());
        }
        left = left / 2;
        if left > 0 {
            base = mul_mag(base.as_slice(), base.as_slice());
        } else {
            proof {
                vstd::arithmetic::power::lemma_pow0(b);
                vstd::arithmetic::power::lemma_pow0(b * b);
            }
        }
    }
    proof {
        let b = limbs_val(base@) as int;
        vstd::arithmetic::power::lemma_pow0(b);
        assert(limbs_val(result@) * 1 == limbs_val(result@));
    }
    result
}

} // verus!
