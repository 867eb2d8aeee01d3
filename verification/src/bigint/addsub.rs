//! Comparison, addition and subtraction of magnitudes.
use super::limbs::{
    add_carry, bpow, canonical, lemma_bpow_pos, lemma_canonical_longer, lemma_val_bound,
    lemma_val_push, lemma_val_skip, lemma_val_split, lemma_val_take, lemma_val_zeros, limbs_val,
    strip, sub_borrow,
};
use vstd::prelude::*;
use vstd::slice::slice_to_vec;

verus! {

/// The outcome of a three-way comparison.
#[derive(Clone, Copy, PartialEq, Eq, Structural, Debug)]
pub enum Relation {
    Less,
    Equal,
    Greater,
}

/// How two numbers compare.
pub open spec fn relation_of(x: int, y: int) -> Relation {
    if x < y {
        Relation::Less
    } else if x == y {
        Relation::Equal
    } else {
        Relation::Greater
    }
}

/// The limb at index `i`, or zero past the end.
pub open spec fn limb_at(s: Seq<u64>, i: int) -> u64 {
    if 0 <= i < s.len() {
        s[i]
    } else {
        0
    }
}

/// The value of the low `i` limbs.
pub open spec fn low_val(s: Seq<u64>, i: nat) -> nat {
    limbs_val(s.take(if i <= s.len() { i as int } else { s.len() as int }))
}

pub proof fn lemma_low_val_zero(s: Seq<u64>)
    ensures
        low_val(s, 0) == 0,
{
    assert(s.take(0).len() == 0);
}

pub proof fn lemma_low_val_all(s: Seq<u64>, n: nat)
    requires
        n >= s.len(),
    ensures
        low_val(s, n) == limbs_val(s),
{
    assert(s.take(s.len() as int) =~= s);
}

pub proof fn lemma_low_val_step(s: Seq<u64>, i: nat)
    ensures
        low_val(s, i + 1) == low_val(s, i) + bpow(i) * limb_at(s, i as int),
{
    if i < s.len() {
        lemma_val_take(s, i as int);
    } else {
        assert(bpow(i) * 0 == 0) by (nonlinear_arith);
    }
}

/// Overwriting the limb just above a known prefix.
pub proof fn lemma_take_update(s: Seq<u64>, i: int, x: u64)
    requires
        0 <= i < s.len(),
    ensures
        limbs_val(s.update(i, x).take(i + 1)) == limbs_val(s.take(i)) + bpow(i as nat) * x,
        s.update(i, x).take(i) == s.take(i),
{
    lemma_val_take(s.update(i, x), i);
    assert(s.update(i, x).take(i) =~= s.take(i));
}

/// The highest index at which two magnitudes of equal length differ.
fn top_difference(a: &[u64], b: &[u64]) -> (r: Option<usize>)
    requires
        a@.len() == b@.len(),
    ensures
        match r {
            None => a@ == b@,
            Some(i) => {
                &&& i < a@.len()
                &&& a@[i as int] != b@[i as int]
                &&& (a@[i as int] < b@[i as int] <==> limbs_val(a@) < limbs_val(b@))
                &&& limbs_val(a@) != limbs_val(b@)
            },
        },
{
    let mut i: usize = a.len();
    while i > 0
        invariant
            i <= a@.len(),
            a@.len() == b@.len(),
            a@.skip(i as int) == b@.skip(i as int),
        decreases i,
    {
        i = i - 1;
        if a[i] != b[i] {
            proof {
                lemma_val_split(a@, i as int);
                lemma_val_split(b@, i as int);
                lemma_val_skip(a@, i as int);
                lemma_val_skip(b@, i as int);
                lemma_val_bound(a@.take(i as int));
                lemma_val_bound(b@.take(i as int));
                let p = bpow(i as nat) as int;
                let la = limbs_val(a@.take(i as int)) as int;
                let lb = limbs_val(b@.take(i as int)) as int;
                let h = limbs_val(a@.skip(i + 1)) as int;
                let x = a@[i as int] as int;
                let y = b@[i as int] as int;
                let bb: int = 0x1_0000_0000_0000_0000;
                assert(la + p * (x + bb * h) - (lb + p * (y + bb * h)) == la - lb + p * (x - y))
                    by (nonlinear_arith);
                assert(x < y ==> p * (x - y) <= -p) by (nonlinear_arith)
                    requires
                        p >= 0,
                ;
                assert(x > y ==> p * (x - y) >= p) by (nonlinear_arith)
                    requires
                        p >= 0,
                ;
            }
            return Some(i);
        }
        proof {
            assert(a@.skip(i as int) =~= seq![a@[i as int]] + a@.skip(i + 1));
            assert(b@.skip(i as int) =~= seq![b@[i as int]] + b@.skip(i + 1));
        }
    }
    proof {
        assert(a@.skip(0) =~= a@);
        assert(b@.skip(0) =~= b@);
    }
    None
}

/// Compare two canonical magnitudes by value.
pub(crate) fn relate_mag(a: &[u64], b: &[u64]) -> (r: Relation)
    requires
        canonical(a@),
        canonical(b@),
    ensures
        r == relation_of(limbs_val(a@) as int, limbs_val(b@) as int),
{
    if a.len() < b.len() {
        proof {
            lemma_canonical_longer(a@, b@);
        }
        return Relation::Less;
    }
    if a.len() > b.len() {
        proof {
            lemma_canonical_longer(b@, a@);
        }
        return Relation::Greater;
    }
    match top_difference(a, b) {
        None => Relation::Equal,
        Some(i) => {
            if a[i] < b[i] {
                Relation::Less
            } else {
                Relation::Greater
            }
        },
    }
}

/// `a += b` in place over magnitudes, growing the buffer when `b` is wider or a carry escapes.
pub(crate) fn add_mag_inplace(a: &mut Vec<u64>, b: &[u64])
    ensures
        limbs_val(final(a)@) == limbs_val(old(a)@) + limbs_val(b@),
        canonical(old(a)@) && canonical(b@) ==> canonical(final(a)@),
        final(a)@.len() <= 1 + if old(a)@.len() >= b@.len() {
            old(a)@.len()
        } else {
            b@.len()
        },
{
    let ghost a0 = a@;
    if a.len() < b.len() {
        a.resize(b.len(), 0);
        proof {
            let pad = a@.skip(a0.len() as int);
            lemma_val_split(a@, a0.len() as int);
            assert(a@.take(a0.len() as int) =~= a0);
            lemma_val_zeros(pad);
            assert(bpow(a0.len()) * 0 == 0) by (nonlinear_arith);
        }
    }
    let ghost a1 = a@;
    let n: usize = a.len();
    let mut carry: u64 = 0;
    let mut i: usize = 0;
    proof {
        lemma_low_val_zero(a1);
        lemma_low_val_zero(b@);
        assert(a@.take(0).len() == 0);
    }
    // a1's top limb stays nonzero once the carry has passed it
    while i < n
        invariant
            n == a@.len() == a1.len(),
            b@.len() <= n,
            i <= n,
            carry <= 1,
            limbs_val(a@.take(i as int)) + bpow(i as nat) * carry == low_val(a1, i as nat)
                + low_val(b@, i as nat),
            forall|k: int| i <= k < n ==> a@[k] == a1[k],
        decreases n - i,
    {
        let bv: u64 = if i < b.len() {
            b[i]
        } else {
            0
        };
        let (s, c): (u64, u64) = add_carry(a[i], bv, carry);
        proof {
            lemma_low_val_step(a1, i as nat);
            lemma_low_val_step(b@, i as nat);
            lemma_take_update(a@, i as int, s);
            let p = bpow(i as nat) as int;
            let av = a1[i as int] as int;
            let cin = carry as int;
            let cout = c as int;
            assert(p * s + (0x1_0000_0000_0000_0000 * p) * cout == p * cin + p * av + p * bv)
                by (nonlinear_arith)
                requires
                    s + 0x1_0000_0000_0000_0000 * cout == av + bv + cin,
            ;
        }
        a.set(i, s);
        carry = c;
        i = i + 1;
    }
    proof {
        lemma_low_val_all(a1, n as nat);
        lemma_low_val_all(b@, n as nat);
        assert(a@.take(n as int) =~= a@);
        lemma_val_push(a@, carry);
        assert(bpow(n as nat) * 0 == 0) by (nonlinear_arith);
    }
    let ghost a2 = a@;
    if carry != 0 {
        a.push(carry);
    }
    proof {
        if canonical(a0) && canonical(b@) {
            super::limbs::lemma_bpow_pos(n as nat);
            if carry == 0 && n > 0 {
                // the value is at least the weight of the top limb, so that limb is nonzero
                if a2.last() == 0 {
                    super::limbs::lemma_val_drop_zero(a2);
                    lemma_val_bound(a2.drop_last());
                    if a0.len() == n {
                        super::limbs::lemma_canonical_lower(a0);
                    } else {
                        super::limbs::lemma_canonical_lower(b@);
                    }
                }
            }
        }
    }
}

/// `a + b` over magnitudes.
pub(crate) fn add_mag(a: &[u64], b: &[u64]) -> (out: Vec<u64>)
    ensures
        limbs_val(out@) == limbs_val(a@) + limbs_val(b@),
        canonical(out@),
        out@.len() <= 1 + if a@.len() >= b@.len() {
            a@.len()
        } else {
            b@.len()
        },
{
    let mut out: Vec<u64> = slice_to_vec(a);
    add_mag_inplace(&mut out, b);
    strip(&mut out);
    out
}

/// `a -= b` in place over magnitudes, for `a >= b`.
pub(crate) fn sub_mag_inplace(a: &mut Vec<u64>, b: &[u64])
    requires
        canonical(b@),
        limbs_val(old(a)@) >= limbs_val(b@),
    ensures
        limbs_val(final(a)@) == limbs_val(old(a)@) - limbs_val(b@),
        canonical(final(a)@),
{
    let ghost a1 = a@;
    let n: usize = a.len();
    let mut borrow: u64 = 0;
    let mut i: usize = 0;
    proof {
        if b@.len() > n {
            lemma_canonical_longer(a1, b@);
        }
        lemma_low_val_zero(a1);
        lemma_low_val_zero(b@);
        assert(a@.take(0).len() == 0);
    }
    while i < n
        invariant
            n == a@.len() == a1.len(),
            i <= n,
            borrow <= 1,
            limbs_val(a@.take(i as int)) - bpow(i as nat) * borrow == low_val(a1, i as nat)
                - low_val(b@, i as nat),
            forall|k: int| i <= k < n ==> a@[k] == a1[k],
        decreases n - i,
    {
        let bv: u64 = if i < b.len() {
            b[i]
        } else {
            0
        };
        let (d, c): (u64, u64) = sub_borrow(a[i], bv, borrow);
        proof {
            lemma_low_val_step(a1, i as nat);
            lemma_low_val_step(b@, i as nat);
            lemma_take_update(a@, i as int, d);
            let p = bpow(i as nat) as int;
            let av = a1[i as int] as int;
            let cin = borrow as int;
            let cout = c as int;
            assert(p * d - (0x1_0000_0000_0000_0000 * p) * cout == p * av - p * bv - p * cin)
                by (nonlinear_arith)
                requires
                    d - 0x1_0000_0000_0000_0000 * cout == av - bv - cin,
            ;
        }
        a.set(i, d);
        borrow = c;
        i = i + 1;
    }
    proof {
        lemma_low_val_all(a1, n as nat);
        lemma_low_val_all(b@, n as nat);
        assert(a@.take(n as int) =~= a@);
        lemma_val_bound(a@);
        if borrow == 1 {
            assert(bpow(n as nat) * 1 == bpow(n as nat)) by (nonlinear_arith);
        }
        assert(bpow(n as nat) * 0 == 0) by (nonlinear_arith);
    }
    strip(a);
}

/// `a - b` over magnitudes, for `a >= b`.
pub(crate) fn sub_mag(a: &[u64], b: &[u64]) -> (out: Vec<u64>)
    requires
        canonical(b@),
        limbs_val(a@) >= limbs_val(b@),
    ensures
        limbs_val(out@) == limbs_val(a@) - limbs_val(b@),
        canonical(out@),
{
    let mut out: Vec<u64> = slice_to_vec(a);
    sub_mag_inplace(&mut out, b);
    out
}

/// `a = b - a` in place over magnitudes, for `b >= a`.
pub(crate) fn rsub_mag_inplace(a: &mut Vec<u64>, b: &[u64])
    requires
        canonical(old(a)@),
        limbs_val(old(a)@) <= limbs_val(b@),
    ensures
        limbs_val(final(a)@) == limbs_val(b@) - limbs_val(old(a)@),
        canonical(final(a)@),
{
    let ghost a0 = a@;
    proof {
        if a0.len() > b@.len() {
            lemma_canonical_longer(b@, a0);
        }
    }
    if a.len() < b.len() {
        a.resize(b.len(), 0);
        proof {
            lemma_val_split(a@, a0.len() as int);
            assert(a@.take(a0.len() as int) =~= a0);
            lemma_val_zeros(a@.skip(a0.len() as int));
            assert(bpow(a0.len()) * 0 == 0) by (nonlinear_arith);
        }
    }
    let ghost a1 = a@;
    let n: usize = a.len();
    let mut borrow: u64 = 0;
    let mut i: usize = 0;
    proof {
        lemma_low_val_zero(a1);
        lemma_low_val_zero(b@);
        assert(a@.take(0).len() == 0);
    }
    while i < n
        invariant
            n == a@.len() == a1.len() == b@.len(),
            i <= n,
            borrow <= 1,
            limbs_val(a@.take(i as int)) - bpow(i as nat) * borrow == low_val(b@, i as nat)
                - low_val(a1, i as nat),
            forall|k: int| i <= k < n ==> a@[k] == a1[k],
        decreases n - i,
    {
        let (d, c): (u64, u64) = sub_borrow(b[i], a[i], borrow);
        proof {
            lemma_low_val_step(a1, i as nat);
            lemma_low_val_step(b@, i as nat);
            lemma_take_update(a@, i as int, d);
            let p = bpow(i as nat) as int;
            let av = a1[i as int] as int;
            let bv = b@[i as int] as int;
            let cin = borrow as int;
            let cout = c as int;
            assert(p * d - (0x1_0000_0000_0000_0000 * p) * cout == p * bv - p * av - p * cin)
                by (nonlinear_arith)
                requires
                    d - 0x1_0000_0000_0000_0000 * cout == bv - av - cin,
            ;
        }
        a.set(i, d);
        borrow = c;
        i = i + 1;
    }
    proof {
        lemma_low_val_all(a1, n as nat);
        lemma_low_val_all(b@, n as nat);
        assert(a@.take(n as int) =~= a@);
        lemma_val_bound(a@);
        if borrow == 1 {
            assert(bpow(n as nat) * 1 == bpow(n as nat)) by (nonlinear_arith);
        }
        assert(bpow(n as nat) * 0 == 0) by (nonlinear_arith);
    }
    strip(a);
}

} // verus!
