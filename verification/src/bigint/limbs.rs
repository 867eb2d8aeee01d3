//! The mathematical reading of a little-endian limb sequence, and the word-level steps that the
//! magnitude algorithms are built from.
use vstd::prelude::*;

verus! {

/// `2^(64 n)`: the weight of the limb at index `n`.
pub open spec fn bpow(n: nat) -> nat
    decreases n,
{
    if n == 0 {
        1
    } else {
        0x1_0000_0000_0000_0000 * bpow((n - 1) as nat)
    }
}

/// The value of a little-endian limb sequence.
pub open spec fn limbs_val(s: Seq<u64>) -> nat
    decreases s.len(),
{
    if s.len() == 0 {
        0
    } else {
        s[0] as nat + 0x1_0000_0000_0000_0000 * limbs_val(s.drop_first())
    }
}

/// A magnitude is canonical when its most significant limb is nonzero (zero is the empty sequence).
pub open spec fn canonical(s: Seq<u64>) -> bool {
    s.len() > 0 ==> s.last() != 0
}

pub proof fn lemma_bpow_pos(n: nat)
    ensures
        bpow(n) >= 1,
    decreases n,
{
    if n > 0 {
        lemma_bpow_pos((n - 1) as nat);
    }
}

pub proof fn lemma_bpow_add(m: nat, n: nat)
    ensures
        bpow(m + n) == bpow(m) * bpow(n),
    decreases m,
{
    if m > 0 {
        lemma_bpow_add((m - 1) as nat, n);
        let p = bpow((m - 1) as nat);
        assert(0x1_0000_0000_0000_0000 * (p * bpow(n)) == (0x1_0000_0000_0000_0000 * p) * bpow(n))
            by (nonlinear_arith);
        assert((m + n - 1) as nat == (m - 1) as nat + n);
    } else {
        assert(1 * bpow(n) == bpow(n)) by (nonlinear_arith);
    }
}

pub proof fn lemma_bpow_mono(m: nat, n: nat)
    requires
        m <= n,
    ensures
        bpow(m) <= bpow(n),
    decreases n - m,
{
    if m < n {
        lemma_bpow_mono(m, (n - 1) as nat);
        lemma_bpow_pos((n - 1) as nat);
    }
}

pub proof fn lemma_val_bound(s: Seq<u64>)
    ensures
        limbs_val(s) < bpow(s.len()),
    decreases s.len(),
{
    if s.len() > 0 {
        lemma_val_bound(s.drop_first());
    }
}

pub proof fn lemma_val_concat(a: Seq<u64>, b: Seq<u64>)
    ensures
        limbs_val(a + b) == limbs_val(a) + bpow(a.len()) * limbs_val(b),
    decreases a.len(),
{
    if a.len() == 0 {
        assert(a + b =~= b);
        assert(1 * limbs_val(b) == limbs_val(b)) by (nonlinear_arith);
    } else {
        lemma_val_concat(a.drop_first(), b);
        assert((a + b).drop_first() =~= a.drop_first() + b);
        let p = bpow((a.len() - 1) as nat);
        let v = limbs_val(b);
        assert(0x1_0000_0000_0000_0000 * (p * v) == (0x1_0000_0000_0000_0000 * p) * v)
            by (nonlinear_arith);
    }
}

pub proof fn lemma_val_single(x: u64)
    ensures
        limbs_val(seq![x]) == x,
{
    assert(seq![x].drop_first() =~= Seq::<u64>::empty());
    assert(limbs_val(seq![x].drop_first()) == 0);
}

pub proof fn lemma_val_push(s: Seq<u64>, x: u64)
    ensures
        limbs_val(s.push(x)) == limbs_val(s) + bpow(s.len()) * x,
{
    lemma_val_concat(s, seq![x]);
    lemma_val_single(x);
    assert(s.push(x) =~= s + seq![x]);
}

/// Extending a prefix by one limb.
pub proof fn lemma_val_take(s: Seq<u64>, i: int)
    requires
        0 <= i < s.len(),
    ensures
        limbs_val(s.take(i + 1)) == limbs_val(s.take(i)) + bpow(i as nat) * s[i],
{
    lemma_val_push(s.take(i), s[i]);
    assert(s.take(i + 1) =~= s.take(i).push(s[i]));
}

/// Peeling the lowest limb off a suffix.
pub proof fn lemma_val_skip(s: Seq<u64>, i: int)
    requires
        0 <= i < s.len(),
    ensures
        limbs_val(s.skip(i)) == s[i] + 0x1_0000_0000_0000_0000 * limbs_val(s.skip(i + 1)),
{
    assert(s.skip(i).drop_first() =~= s.skip(i + 1));
}

pub proof fn lemma_val_split(s: Seq<u64>, i: int)
    requires
        0 <= i <= s.len(),
    ensures
        limbs_val(s) == limbs_val(s.take(i)) + bpow(i as nat) * limbs_val(s.skip(i)),
{
    lemma_val_concat(s.take(i), s.skip(i));
    assert(s =~= s.take(i) + s.skip(i));
}

pub proof fn lemma_val_update(s: Seq<u64>, i: int, x: u64)
    requires
        0 <= i < s.len(),
    ensures
        limbs_val(s.update(i, x)) == limbs_val(s) + bpow(i as nat) * (x - s[i]),
{
    let t = s.update(i, x);
    lemma_val_split(s, i);
    lemma_val_split(t, i);
    assert(t.take(i) =~= s.take(i));
    lemma_val_skip(s, i);
    lemma_val_skip(t, i);
    assert(t.skip(i + 1) =~= s.skip(i + 1));
    let p = bpow(i as nat) as int;
    let w = limbs_val(s.skip(i + 1)) as int;
    let old_limb = s[i] as int;
    let new_limb = x as int;
    assert(p * (new_limb + 0x1_0000_0000_0000_0000 * w) == p * (old_limb + 0x1_0000_0000_0000_0000
        * w) + p * (new_limb - old_limb)) by (nonlinear_arith);
}

pub proof fn lemma_val_zeros(s: Seq<u64>)
    requires
        forall|i: int| 0 <= i < s.len() ==> s[i] == 0,
    ensures
        limbs_val(s) == 0,
    decreases s.len(),
{
    if s.len() > 0 {
        assert forall|i: int| 0 <= i < s.drop_first().len() implies s.drop_first()[i] == 0 by {
            assert(s.drop_first()[i] == s[i + 1]);
        }
        lemma_val_zeros(s.drop_first());
    }
}

/// A zero top limb contributes nothing.
pub proof fn lemma_val_drop_zero(s: Seq<u64>)
    requires
        s.len() > 0,
        s.last() == 0,
    ensures
        limbs_val(s.drop_last()) == limbs_val(s),
{
    lemma_val_push(s.drop_last(), 0);
    assert(s =~= s.drop_last().push(0));
    assert(bpow((s.len() - 1) as nat) * 0 == 0) by (nonlinear_arith);
}

/// A canonical nonempty magnitude is at least the weight of its top limb.
pub proof fn lemma_canonical_lower(s: Seq<u64>)
    requires
        canonical(s),
        s.len() > 0,
    ensures
        limbs_val(s) >= bpow((s.len() - 1) as nat),
        limbs_val(s) >= 1,
{
    let n = (s.len() - 1) as nat;
    lemma_val_push(s.drop_last(), s.last());
    assert(s =~= s.drop_last().push(s.last()));
    lemma_bpow_pos(n);
    let p = bpow(n);
    let t = s.last() as nat;
    assert(p * t >= p) by (nonlinear_arith)
        requires
            t >= 1,
            p >= 1,
    ;
}

/// Two canonical magnitudes of one value are the same limbs.
pub proof fn lemma_canonical_unique(a: Seq<u64>, b: Seq<u64>)
    requires
        canonical(a),
        canonical(b),
        limbs_val(a) == limbs_val(b),
    ensures
        a == b,
    decreases a.len(),
{
    if a.len() == 0 {
        if b.len() > 0 {
            lemma_canonical_lower(b);
        }
        assert(a =~= b);
    } else if b.len() == 0 {
        lemma_canonical_lower(a);
    } else {
        let va = limbs_val(a.drop_first());
        let vb = limbs_val(b.drop_first());
        assert(va == vb && a[0] == b[0]);
        if a.drop_first().len() > 0 {
            assert(a.drop_first().last() == a.last());
        }
        if b.drop_first().len() > 0 {
            assert(b.drop_first().last() == b.last());
        }
        lemma_canonical_unique(a.drop_first(), b.drop_first());
        assert(a =~= seq![a[0]] + a.drop_first());
        assert(b =~= seq![b[0]] + b.drop_first());
    }
}

/// More limbs means a larger canonical value.
pub proof fn lemma_canonical_longer(a: Seq<u64>, b: Seq<u64>)
    requires
        canonical(b),
        a.len() < b.len(),
    ensures
        limbs_val(a) < limbs_val(b),
{
    lemma_val_bound(a);
    lemma_canonical_lower(b);
    lemma_bpow_mono(a.len(), (b.len() - 1) as nat);
}

/// The low word of a double word.
pub(crate) fn lo64(x: u128) -> (r: u64)
    ensures
        r == x % 0x1_0000_0000_0000_0000,
{
    assert(x as u64 == x % 0x1_0000_0000_0000_0000u128) by (bit_vector);
    x as u64
}

/// The high word of a double word.
pub(crate) fn hi64(x: u128) -> (r: u64)
    ensures
        r == x / 0x1_0000_0000_0000_0000,
{
    assert((x >> 64) as u64 == x / 0x1_0000_0000_0000_0000u128) by (bit_vector);
    (x >> 64) as u64
}

/// `a + b + carry` as a word and an outgoing carry.
pub(crate) fn add_carry(a: u64, b: u64, carry: u64) -> (r: (u64, u64))
    requires
        carry <= 1,
    ensures
        r.0 + 0x1_0000_0000_0000_0000 * r.1 == a + b + carry,
        r.1 <= 1,
{
    let s: u128 = a as u128 + b as u128 + carry as u128;
    (lo64(s), hi64(s))
}

/// `a - b - borrow` as a word and an outgoing borrow.
pub(crate) fn sub_borrow(a: u64, b: u64, borrow: u64) -> (r: (u64, u64))
    requires
        borrow <= 1,
    ensures
        r.0 - 0x1_0000_0000_0000_0000 * r.1 == a - b - borrow,
        r.1 <= 1,
{
    let d1: u64 = a.wrapping_sub(b);
    let d2: u64 = d1.wrapping_sub(borrow);
    let b1: bool = a < b;
    let b2: bool = d1 < borrow;
    (d2, if b1 || b2 { 1 } else { 0 })
}

/// Widening multiply `a * b` as `(high, low)`.
pub(crate) fn wide_mul(a: u64, b: u64) -> (r: (u64, u64))
    ensures
        r.0 * 0x1_0000_0000_0000_0000 + r.1 == a * b,
{
    assert(a * b <= 0xffff_ffff_ffff_ffff * 0xffff_ffff_ffff_ffff) by (nonlinear_arith)
        requires
            a <= 0xffff_ffff_ffff_ffff,
            b <= 0xffff_ffff_ffff_ffff,
    ;
    let p: u128 = (a as u128) * (b as u128);
    (hi64(p), lo64(p))
}

/// Strip trailing zero limbs from a magnitude.
pub(crate) fn strip(v: &mut Vec<u64>)
    ensures
        canonical(final(v)@),
        limbs_val(final(v)@) == limbs_val(old(v)@),
        final(v)@.len() <= old(v)@.len(),
        final(v)@ == old(v)@.take(final(v)@.len() as int),
{
    while v.len() > 0 && v[v.len() - 1] == 0
        invariant
            limbs_val(v@) == limbs_val(old(v)@),
            v@.len() <= old(v)@.len(),
            v@ == old(v)@.take(v@.len() as int),
        decreases v.len(),
    {
        proof {
            lemma_val_drop_zero(v@);
        }
        v.pop();
        assert(v@ =~= old(v)@.take(v@.len() as int));
    }
}

} // verus!
