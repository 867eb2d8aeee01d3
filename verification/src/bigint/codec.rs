//! Byte encodings: sign-magnitude and little-endian two's complement.
use super::limbs::{bpow, lemma_val_push, lemma_val_take, limbs_val};
use vstd::prelude::*;

verus! {

/// `256^n`: the weight of the byte at index `n`.
pub open spec fn pow256(n: nat) -> nat
    decreases n,
{
    if n == 0 {
        1
    } else {
        256 * pow256((n - 1) as nat)
    }
}

/// The value of a little-endian byte sequence.
pub open spec fn bytes_val(s: Seq<u8>) -> nat
    decreases s.len(),
{
    if s.len() == 0 {
        0
    } else {
        s[0] as nat + 256 * bytes_val(s.drop_first())
    }
}

/// The little-endian bytes of `n` without trailing zero bytes.
pub open spec fn le_bytes(n: nat) -> Seq<u8>
    decreases n,
{
    if n == 0 {
        seq![]
    } else {
        seq![(n % 256) as u8] + le_bytes(n / 256)
    }
}

/// Whether the most significant byte is nonzero (or there is none).
pub open spec fn stripped(s: Seq<u8>) -> bool {
    s.len() > 0 ==> s.last() != 0
}

/// The canonical sign-magnitude encoding: a sign byte, then the minimal little-endian magnitude.
pub open spec fn sign_magnitude(v: int) -> Seq<u8> {
    if v < 0 {
        seq![1u8] + le_bytes((-v) as nat)
    } else {
        seq![0u8] + le_bytes(v as nat)
    }
}

/// The value that a sign-magnitude byte string denotes; the empty string denotes zero.
pub open spec fn sign_magnitude_value(s: Seq<u8>) -> int {
    if s.len() == 0 {
        0
    } else if s[0] != 0 {
        -(bytes_val(s.skip(1)) as int)
    } else {
        bytes_val(s.skip(1)) as int
    }
}

/// The value that a little-endian two's-complement byte string denotes; the top bit of the last byte
/// is the sign.
pub open spec fn twos_value(s: Seq<u8>) -> int {
    if s.len() > 0 && s.last() >= 128 {
        bytes_val(s) - pow256(s.len())
    } else {
        bytes_val(s) as int
    }
}

/// No shorter two's-complement byte string denotes the same value.
pub open spec fn twos_minimal(s: Seq<u8>) -> bool {
    &&& s.len() == 1 ==> s[0] != 0
    &&& s.len() >= 2 && s.last() == 0 ==> s[s.len() - 2] >= 128
    &&& s.len() >= 2 && s.last() == 255 ==> s[s.len() - 2] < 128
}

pub proof fn lemma_pow256_pos(n: nat)
    ensures
        pow256(n) >= 1,
    decreases n,
{
    if n > 0 {
        lemma_pow256_pos((n - 1) as nat);
    }
}

pub proof fn lemma_pow256_mono(m: nat, n: nat)
    requires
        m <= n,
    ensures
        pow256(m) <= pow256(n),
    decreases n - m,
{
    if m < n {
        lemma_pow256_mono(m, (n - 1) as nat);
        lemma_pow256_pos((n - 1) as nat);
    }
}

pub proof fn lemma_pow256_values()
    ensures
        pow256(0) == 1,
        pow256(1) == 256,
        pow256(8) == 0x1_0000_0000_0000_0000,
        pow256(16) == 0x1_0000_0000_0000_0000 * 0x1_0000_0000_0000_0000,
{
    reveal_with_fuel(pow256, 17);
}

/// Eight bytes make a limb.
pub proof fn lemma_pow256_bpow(n: nat)
    ensures
        pow256(8 * n) == bpow(n),
    decreases n,
{
    if n > 0 {
        lemma_pow256_bpow((n - 1) as nat);
        reveal_with_fuel(pow256, 9);
        assert((8 * n - 8) as nat == 8 * (n - 1) as nat);
    }
}

pub proof fn lemma_bytes_push(s: Seq<u8>, x: u8)
    ensures
        bytes_val(s.push(x)) == bytes_val(s) + pow256(s.len()) * x,
    decreases s.len(),
{
    if s.len() == 0 {
        assert(s.push(x).drop_first() =~= Seq::<u8>::empty());
        assert(bytes_val(s.push(x).drop_first()) == 0);
        assert(pow256(0) * x == x) by (nonlinear_arith)
            requires
                pow256(0) == 1,
        ;
    } else {
        lemma_bytes_push(s.drop_first(), x);
        assert(s.push(x).drop_first() =~= s.drop_first().push(x));
        let p = pow256((s.len() - 1) as nat);
        assert(256 * (p * x) == (256 * p) * x) by (nonlinear_arith);
    }
}

pub proof fn lemma_bytes_bound(s: Seq<u8>)
    ensures
        bytes_val(s) < pow256(s.len()),
    decreases s.len(),
{
    if s.len() > 0 {
        lemma_bytes_bound(s.drop_first());
    }
}

pub proof fn lemma_bytes_take(s: Seq<u8>, i: int)
    requires
        0 <= i < s.len(),
    ensures
        bytes_val(s.take(i + 1)) == bytes_val(s.take(i)) + pow256(i as nat) * s[i],
{
    lemma_bytes_push(s.take(i), s[i]);
    assert(s.take(i + 1) =~= s.take(i).push(s[i]));
}

pub proof fn lemma_bytes_last(s: Seq<u8>)
    requires
        s.len() > 0,
    ensures
        bytes_val(s) == bytes_val(s.drop_last()) + pow256((s.len() - 1) as nat) * s.last(),
        bytes_val(s.drop_last()) < pow256((s.len() - 1) as nat),
{
    lemma_bytes_push(s.drop_last(), s.last());
    assert(s =~= s.drop_last().push(s.last()));
    lemma_bytes_bound(s.drop_last());
}

/// A byte string without trailing zeros is the encoding of its value.
pub proof fn lemma_le_bytes_unique(s: Seq<u8>)
    requires
        stripped(s),
    ensures
        s == le_bytes(bytes_val(s)),
    decreases s.len(),
{
    if s.len() > 0 {
        let t = s.drop_first();
        if t.len() > 0 {
            assert(t.last() == s.last());
        }
        lemma_le_bytes_unique(t);
        let v = bytes_val(s);
        assert(v % 256 == s[0] as nat);
        assert(v / 256 == bytes_val(t));
        if t.len() > 0 {
            lemma_bytes_last(t);
            lemma_pow256_pos((t.len() - 1) as nat);
            let p = pow256((t.len() - 1) as nat);
            let x = t.last() as nat;
            assert(p * x >= 1) by (nonlinear_arith)
                requires
                    p >= 1,
                    x >= 1,
            ;
        }
        assert(v > 0);
        assert(s =~= seq![s[0]] + t);
    }
}

/// The minimal encoding denotes the number and has no trailing zero byte.
pub proof fn lemma_le_bytes_val(n: nat)
    ensures
        bytes_val(le_bytes(n)) == n,
        stripped(le_bytes(n)),
        n > 0 ==> le_bytes(n).len() > 0,
    decreases n,
{
    if n > 0 {
        lemma_le_bytes_val(n / 256);
        let s = le_bytes(n);
        assert(s.drop_first() =~= le_bytes(n / 256));
        if n / 256 > 0 {
            assert(s.last() == le_bytes(n / 256).last());
        }
    }
}

/// Decoding a canonical sign-magnitude encoding gives the value back.
pub proof fn lemma_sign_magnitude_round_trip(v: int)
    ensures
        sign_magnitude_value(sign_magnitude(v)) == v,
{
    let m = (if v < 0 { -v } else { v }) as nat;
    lemma_le_bytes_val(m);
    assert(sign_magnitude(v).skip(1) =~= le_bytes(m));
}

/// Equal values have identical sign-magnitude encodings and different values different ones.
pub proof fn lemma_sign_magnitude_injective(v: int, w: int)
    ensures
        sign_magnitude(v) == sign_magnitude(w) <==> v == w,
{
    lemma_sign_magnitude_round_trip(v);
    lemma_sign_magnitude_round_trip(w);
}

/// A minimal two's-complement byte string is determined by its value.
pub proof fn lemma_twos_unique(s: Seq<u8>, t: Seq<u8>)
    requires
        twos_minimal(s),
        twos_minimal(t),
        twos_value(s) == twos_value(t),
    ensures
        s == t,
{
    lemma_twos_range(s);
    lemma_twos_range(t);
    if s.len() < t.len() {
        lemma_twos_outside(t, s.len());
    }
    if t.len() < s.len() {
        lemma_twos_outside(s, t.len());
    }
    assert(s.len() == t.len());
    lemma_bytes_bound(s);
    lemma_bytes_bound(t);
    assert(bytes_val(s) == bytes_val(t)) by {
        if s.len() > 0 {
            lemma_bytes_last(s);
            lemma_bytes_last(t);
        }
    }
    lemma_bytes_injective(s, t);
}

/// Byte strings of one length and one value are equal.
pub proof fn lemma_bytes_injective(s: Seq<u8>, t: Seq<u8>)
    requires
        s.len() == t.len(),
        bytes_val(s) == bytes_val(t),
    ensures
        s == t,
    decreases s.len(),
{
    if s.len() > 0 {
        lemma_bytes_injective(s.drop_first(), t.drop_first());
        assert(s =~= seq![s[0]] + s.drop_first());
        assert(t =~= seq![t[0]] + t.drop_first());
    } else {
        assert(s =~= t);
    }
}

/// `n` bytes hold the two's-complement values from `-256^n / 2` up to `256^n / 2 - 1`.
pub proof fn lemma_twos_range(s: Seq<u8>)
    ensures
        -(pow256(s.len()) as int) <= 2 * twos_value(s) < pow256(s.len()),
{
    if s.len() > 0 {
        lemma_bytes_last(s);
        let p = pow256((s.len() - 1) as nat) as int;
        let x = s.last() as int;
        if x >= 128 {
            assert(p * x >= p * 128) by (nonlinear_arith)
                requires
                    x >= 128,
                    p >= 0,
            ;
            assert(p * x <= p * 255) by (nonlinear_arith)
                requires
                    x <= 255,
                    p >= 0,
            ;
        } else {
            assert(p * x <= p * 127) by (nonlinear_arith)
                requires
                    x <= 127,
                    p >= 0,
            ;
            assert(p * x >= 0) by (nonlinear_arith)
                requires
                    x >= 0,
                    p >= 0,
            ;
        }
    }
}

/// A minimal byte string's value does not fit fewer bytes.
proof fn lemma_twos_outside(s: Seq<u8>, n: nat)
    requires
        twos_minimal(s),
        n < s.len(),
    ensures
        2 * twos_value(s) >= pow256(n) || 2 * twos_value(s) < -(pow256(n) as int),
{
    let k = (s.len() - 1) as nat;
    lemma_pow256_mono(n, k);
    lemma_pow256_pos(k);
    lemma_bytes_last(s);
    let p = pow256(k) as int;
    let x = s.last() as int;
    let low = bytes_val(s.drop_last()) as int;
    assert(pow256(s.len()) == 256 * p);
    if k == 0 {
        assert(low == 0) by {
            assert(s.drop_last().len() == 0);
        }
        assert(p == 1);
        assert(n == 0);
        assert(p * x == x) by (nonlinear_arith)
            requires
                p == 1,
        ;
        // one nonzero byte: 1..=127 or -128..=-1
        assert(pow256(0) == 1);
    } else {
        let t = s.drop_last();
        lemma_bytes_last(t);
        let q = pow256((k - 1) as nat) as int;
        let y = t.last() as int;
        assert(t.last() == s[s.len() - 2]);
        assert(p == 256 * q);
        if x == 0 {
            assert(p * 0 == 0) by (nonlinear_arith);
            assert(q * y >= q * 128) by (nonlinear_arith)
                requires
                    y >= 128,
                    q >= 0,
            ;
        } else if x == 255 {
            assert(p * 255 == 255 * p);
            assert(q * y <= q * 127) by (nonlinear_arith)
                requires
                    y <= 127,
                    q >= 0,
            ;
        } else if x < 128 {
            assert(p * x >= p) by (nonlinear_arith)
                requires
                    x >= 1,
                    p >= 0,
            ;
        } else {
            assert(p * x <= p * 254) by (nonlinear_arith)
                requires
                    x <= 254,
                    p >= 0,
            ;
        }
    }
}

/// Read at most 16 bytes as a little-endian word.
pub(crate) fn read_word(bytes: &[u8], start: usize, end: usize) -> (r: u128)
    requires
        start <= end <= bytes@.len(),
        end - start <= 16,
    ensures
        r == bytes_val(bytes@.subrange(start as int, end as int)),
        r < pow256((end - start) as nat),
{
    let mut acc: u128 = 0;
    let mut j: usize = end;
    proof {
        assert(bytes@.subrange(end as int, end as int).len() == 0);
        lemma_pow256_values();
    }
    while j > start
        invariant
            start <= j <= end <= bytes@.len(),
            end - start <= 16,
            acc == bytes_val(bytes@.subrange(j as int, end as int)),
        decreases j,
    {
        j = j - 1;
        proof {
            let s = bytes@.subrange(j as int, end as int);
            assert(s.drop_first() =~= bytes@.subrange(j + 1, end as int));
            lemma_bytes_bound(s);
            lemma_pow256_mono((end - j) as nat, 16);
            lemma_pow256_values();
        }
        acc = acc * 256 + bytes[j] as u128;
    }
    proof {
        lemma_bytes_bound(bytes@.subrange(start as int, end as int));
    }
    acc
}

/// The limbs of a little-endian byte string that begins at `start`.
pub(crate) fn limbs_from_bytes(bytes: &[u8], start: usize) -> (out: Vec<u64>)
    requires
        start <= bytes@.len(),
    ensures
        limbs_val(out@) == bytes_val(bytes@.skip(start as int)),
{
    let n: usize = bytes.len();
    let mut out: Vec<u64> = Vec::new();
    let mut i: usize = start;
    proof {
        assert(bytes@.subrange(start as int, start as int).len() == 0);
    }
    while i < n
        invariant
            n == bytes@.len(),
            start <= i <= n,
            i < n ==> i - start == 8 * out@.len(),
            limbs_val(out@) == bytes_val(bytes@.subrange(start as int, i as int)),
        decreases n - i,
    {
        let k: usize = if n - i >= 8 {
            8
        } else {
            n - i
        };
        let word: u128 = read_word(bytes, i, i + k);
        proof {
            lemma_pow256_mono(k as nat, 8);
            lemma_pow256_values();
            lemma_bytes_concat(
                bytes@.subrange(start as int, i as int),
                bytes@.subrange(i as int, i + k),
            );
            assert(bytes@.subrange(start as int, i + k) =~= bytes@.subrange(start as int, i as int)
                + bytes@.subrange(i as int, i + k));
            lemma_pow256_bpow(out@.len());
            lemma_val_push(out@, word as u64);
        }
        out.push(word as u64);
        i = i + k;
    }
    proof {
        assert(bytes@.subrange(start as int, n as int) =~= bytes@.skip(start as int));
    }
    out
}

pub proof fn lemma_bytes_concat(a: Seq<u8>, b: Seq<u8>)
    ensures
        bytes_val(a + b) == bytes_val(a) + pow256(a.len()) * bytes_val(b),
    decreases a.len(),
{
    if a.len() == 0 {
        assert(a + b =~= b);
        assert(1 * bytes_val(b) == bytes_val(b)) by (nonlinear_arith);
    } else {
        lemma_bytes_concat(a.drop_first(), b);
        assert((a + b).drop_first() =~= a.drop_first() + b);
        let p = pow256((a.len() - 1) as nat);
        let v = bytes_val(b);
        assert(256 * (p * v) == (256 * p) * v) by (nonlinear_arith);
    }
}

/// Append the eight little-endian bytes of a limb.
fn push_limb_bytes(out: &mut Vec<u8>, x: u64)
    ensures
        final(out)@.len() == old(out)@.len() + 8,
        bytes_val(final(out)@) == bytes_val(old(out)@) + pow256(old(out)@.len()) * x,
{
    let ghost n0 = out@.len();
    let mut rest: u64 = x;
    let mut i: usize = 0;
    proof {
        lemma_pow256_values();
    }
    while i < 8
        invariant
            i <= 8,
            out@.len() == n0 + i,
            n0 == old(out)@.len(),
            rest < pow256((8 - i) as nat),
            bytes_val(out@) + pow256(n0 + i as nat) * rest == bytes_val(old(out)@) + pow256(n0) * x,
        decreases 8 - i,
    {
        proof {
            let b = (rest % 256) as u8;
            lemma_bytes_push(out@, b);
            assert(pow256((8 - i) as nat) == 256 * pow256((7 - i) as nat));
            let p = pow256(n0 + i as nat) as int;
            let q = (rest / 256) as int;
            let r = rest as int;
            let m = (rest % 256) as int;
            assert(p * m + (256 * p) * q == p * r) by (nonlinear_arith)
                requires
                    r == 256 * q + m,
            ;
        }
        out.push((rest % 256) as u8);
        rest = rest / 256;
        i = i + 1;
    }
    proof {
        lemma_pow256_values();
        assert(rest == 0);
        assert(pow256(n0 + 8) * 0 == 0) by (nonlinear_arith);
    }
}

/// Remove trailing zero bytes.
fn strip_bytes(v: &mut Vec<u8>)
    ensures
        stripped(final(v)@),
        bytes_val(final(v)@) == bytes_val(old(v)@),
{
    while v.len() > 0 && v[v.len() - 1] == 0
        invariant
            bytes_val(v@) == bytes_val(old(v)@),
        decreases v.len(),
    {
        proof {
            lemma_bytes_last(v@);
            assert(pow256((v@.len() - 1) as nat) * 0 == 0) by (nonlinear_arith);
        }
        v.pop();
    }
}

/// The minimal little-endian bytes of a magnitude.
pub(crate) fn magnitude_bytes(mag: &[u64]) -> (out: Vec<u8>)
    ensures
        out@ == le_bytes(limbs_val(mag@)),
{
    let n: usize = mag.len();
    let mut out: Vec<u8> = Vec::new();
    let mut i: usize = 0;
    proof {
        assert(mag@.take(0).len() == 0);
    }
    while i < n
        invariant
            n == mag@.len(),
            i <= n,
            out@.len() == 8 * i,
            bytes_val(out@) == limbs_val(mag@.take(i as int)),
        decreases n - i,
    {
        proof {
            lemma_pow256_bpow(i as nat);
            lemma_val_take(mag@, i as int);
        }
        push_limb_bytes(&mut out, mag[i]);
        i = i + 1;
    }
    proof {
        assert(mag@.take(n as int) =~= mag@);
    }
    strip_bytes(&mut out);
    proof {
        lemma_le_bytes_unique(out@);
    }
    out
}

/// Two's-complement negation in place: invert every byte and add one.
fn negate_bytes(v: &mut Vec<u8>)
    requires
        bytes_val(old(v)@) > 0,
    ensures
        final(v)@.len() == old(v)@.len(),
        bytes_val(final(v)@) == pow256(old(v)@.len()) - bytes_val(old(v)@),
{
    let ghost v0 = v@;
    let n: usize = v.len();
    let mut carry: u16 = 1;
    let mut i: usize = 0;
    proof {
        assert(v@.take(0).len() == 0);
        assert(v0.take(0).len() == 0);
        assert(pow256(0) * 1 == 1);
    }
    while i < n
        invariant
            n == v@.len() == v0.len(),
            i <= n,
            carry <= 1,
            bytes_val(v@.take(i as int)) + pow256(i as nat) * carry == pow256(i as nat) - bytes_val(
                v0.take(i as int),
            ),
            forall|k: int| i <= k < n ==> v@[k] == v0[k],
        decreases n - i,
    {
        let ghost v1 = v@;
        let t: u16 = (255 - v[i]) as u16 + carry;
        let b: u8 = (t % 256) as u8;
        let c: u16 = t / 256;
        v.set(i, b);
        proof {
            lemma_bytes_take(v@, i as int);
            lemma_bytes_take(v0, i as int);
            assert(v@.take(i as int) =~= v1.take(i as int));
            let p = pow256(i as nat) as int;
            let x = v0[i as int] as int;
            let cin = carry as int;
            let cout = c as int;
            assert(p * b + (256 * p) * cout == p * (255 - x) + p * cin) by (nonlinear_arith)
                requires
                    b + 256 * cout == 255 - x + cin,
            ;
            assert(p * (255 - x) == 255 * p - p * x) by (nonlinear_arith);
        }
        carry = c;
        i = i + 1;
    }
    proof {
        assert(v@.take(n as int) =~= v@);
        assert(v0.take(n as int) =~= v0);
        if carry == 1 {
            assert(pow256(n as nat) * 1 == pow256(n as nat)) by (nonlinear_arith);
        }
        assert(pow256(n as nat) * 0 == 0) by (nonlinear_arith);
    }
}

/// The minimal little-endian two's-complement bytes of a signed magnitude.
pub(crate) fn twos_bytes(neg: bool, mag: &[u64]) -> (out: Vec<u8>)
    requires
        neg ==> limbs_val(mag@) > 0,
    ensures
        twos_minimal(out@),
        twos_value(out@) == if neg {
            -(limbs_val(mag@) as int)
        } else {
            limbs_val(mag@) as int
        },
{
    let mut bytes: Vec<u8> = magnitude_bytes(mag);
    proof {
        lemma_le_bytes_val(limbs_val(mag@));
    }
    let ghost b0 = bytes@;
    if bytes.len() > 0 && bytes[bytes.len() - 1] >= 128 {
        bytes.push(0);
        proof {
            lemma_bytes_push(b0, 0);
            assert(pow256(b0.len()) * 0 == 0) by (nonlinear_arith);
        }
    }
    if !neg {
        return bytes;
    }
    let ghost b1 = bytes@;
    let ghost m = limbs_val(mag@) as int;
    negate_bytes(&mut bytes);
    proof {
        // the top bit is now set
        lemma_bytes_last(b1);
        lemma_bytes_last(bytes@);
        let p = pow256((b1.len() - 1) as nat) as int;
        let x = b1.last() as int;
        let y = bytes@.last() as int;
        let low = bytes_val(b1.drop_last()) as int;
        let lowy = bytes_val(bytes@.drop_last()) as int;
        assert(pow256(b1.len()) == 256 * p);
        assert(y >= 128) by (nonlinear_arith)
            requires
                lowy + p * y == 256 * p - (low + p * x),
                x <= 127,
                low < p,
                lowy < p,
                low >= 0,
                p >= 1,
        ;
    }
    while bytes.len() > 1 && bytes[bytes.len() - 1] == 255 && bytes[bytes.len() - 2] >= 128
        invariant
            bytes@.len() > 0,
            bytes@.last() >= 128,
            bytes_val(bytes@) - pow256(bytes@.len()) == -m,
        decreases bytes.len(),
    {
        proof {
            lemma_bytes_last(bytes@);
            let p = pow256((bytes@.len() - 1) as nat) as int;
            assert(p * 255 == 255 * p);
            assert(pow256(bytes@.len()) == 256 * p);
        }
        bytes.pop();
    }
    bytes
}

/// The magnitude of a two's-complement byte string.
pub(crate) fn twos_magnitude(bytes: &[u8]) -> (r: (bool, Vec<u64>))
    ensures
        twos_value(bytes@) == if r.0 {
            -(limbs_val(r.1@) as int)
        } else {
            limbs_val(r.1@) as int
        },
{
    let n: usize = bytes.len();
    if n == 0 || bytes[n - 1] < 128 {
        proof {
            assert(bytes@.skip(0) =~= bytes@);
        }
        return (false, limbs_from_bytes(bytes, 0));
    }
    let mut v: Vec<u8> = vstd::slice::slice_to_vec(bytes);
    proof {
        lemma_bytes_last(bytes@);
        lemma_pow256_pos((n - 1) as nat);
        let p = pow256((n - 1) as nat) as int;
        let x = bytes@.last() as int;
        assert(p * x >= 1) by (nonlinear_arith)
            requires
                p >= 1,
                x >= 1,
        ;
    }
    negate_bytes(&mut v);
    proof {
        assert(v@.skip(0) =~= v@);
    }
    (true, limbs_from_bytes(v.as_slice(), 0))
}

} // verus!
