//! What digits, limbs and bytes mean, place by place, and what bounds the numbers they spell.
use super::addsub::{relation_of, Relation};
use super::codec::{
    bytes_val, le_bytes, lemma_bytes_bound, lemma_bytes_last, lemma_le_bytes_unique,
    lemma_le_bytes_val, lemma_pow256_pos, lemma_twos_range, lemma_twos_unique, pow256,
    sign_magnitude, sign_magnitude_value, stripped, twos_minimal, twos_value,
};
use super::gcd::{
    gcd, lemma_divides_intro, lemma_gcd_divides, lemma_gcd_greatest, times,
};
use super::limbs::{bpow, canonical, lemma_val_bound, limbs_val};
use super::shift::{bit_length, lemma_bit_length};
use super::{
    chunks_value, order_of, sign_magnitude_order, signed, signed_decimal,
};
use crate::digits::{
    decimal_digits, fixed_digits, lemma_digits_len, lemma_fixed_len, lemma_pow10_is_pow, pow10,
};
use std::cmp::Ordering;
use vstd::arithmetic::div_mod::{
    lemma_div_denominator, lemma_fundamental_div_mod, lemma_fundamental_div_mod_converse,
};
use vstd::arithmetic::power::{lemma_pow0, lemma_pow1, lemma_pow_adds, lemma_pow_positive, pow};
use vstd::arithmetic::power2::pow2;
use vstd::prelude::*;

verus! {

/// The digit of `v` at place `i` in base `b` is the digit of `v / b` one place lower.
pub proof fn lemma_place_below(v: int, b: int, i: nat)
    requires
        v >= 0,
        b > 0,
        i > 0,
    ensures
        v / pow(b, i) == (v / b) / pow(b, (i - 1) as nat),
        pow(b, i) == b * pow(b, (i - 1) as nat),
{
    lemma_pow_adds(b, 1, (i - 1) as nat);
    lemma_pow1(b);
    lemma_pow_positive(b, (i - 1) as nat);
    lemma_div_denominator(v, b, pow(b, (i - 1) as nat));
}

pub proof fn lemma_pow256_is_pow(n: nat)
    ensures
        pow256(n) == pow(256, n),
    decreases n,
{
    if n == 0 {
        lemma_pow0(256);
    } else {
        lemma_pow256_is_pow((n - 1) as nat);
        lemma_pow_adds(256, 1, (n - 1) as nat);
        lemma_pow1(256);
    }
}

pub proof fn lemma_bpow_is_pow(n: nat)
    ensures
        bpow(n) == pow(0x1_0000_0000_0000_0000, n),
    decreases n,
{
    if n == 0 {
        lemma_pow0(0x1_0000_0000_0000_0000);
    } else {
        lemma_bpow_is_pow((n - 1) as nat);
        lemma_pow_adds(0x1_0000_0000_0000_0000, 1, (n - 1) as nat);
        lemma_pow1(0x1_0000_0000_0000_0000);
    }
}

/// The weights of decimal digits, of bytes and of limbs are the powers of 10, of 256 and of `2^64`.
pub proof fn law_weights(n: nat)
    ensures
        pow10(n) == pow(10, n),
        pow256(n) == pow(256, n),
        bpow(n) == pow(0x1_0000_0000_0000_0000, n),
{
    lemma_pow10_is_pow(n);
    lemma_pow256_is_pow(n);
    lemma_bpow_is_pow(n);
}

/// Exactly one of the three answers comes out of a comparison, and it is the one that holds of the
/// numbers.
pub proof fn law_order(x: int, y: int)
    ensures
        order_of(x, y) == Ordering::Less <==> x < y,
        order_of(x, y) == Ordering::Equal <==> x == y,
        order_of(x, y) == Ordering::Greater <==> x > y,
        relation_of(x, y) == Relation::Less <==> x < y,
        relation_of(x, y) == Relation::Equal <==> x == y,
        relation_of(x, y) == Relation::Greater <==> x > y,
{
}

/// A sign applied to a magnitude: the magnitude itself, or what adds up to zero with it.
pub proof fn law_signed(m: nat)
    ensures
        signed(false, m) == m,
        signed(true, m) + m == 0,
{
}

proof fn lemma_digit_at(n: nat, i: int)
    requires
        0 <= i < decimal_digits(n).len(),
    ensures
        decimal_digits(n)[i] as int == 48 + (n as int / pow(
            10,
            (decimal_digits(n).len() - 1 - i) as nat,
        )) % 10,
    decreases n,
{
    let d = decimal_digits(n);
    let k = (d.len() - 1 - i) as nat;
    if k == 0 {
        lemma_pow0(10);
        assert(d.last() == d[i]);
    } else {
        assert(n >= 10);
        lemma_place_below(n as int, 10, k);
        lemma_digit_at(n / 10, i);
        assert(d[i] == decimal_digits(n / 10)[i]);
    }
}

/// The decimal digits of a number: the character at each position is the ASCII digit of that power
/// of ten, and there are as many as the number needs, but at least one.
pub proof fn law_decimal_digits(n: nat)
    ensures
        decimal_digits(n).len() >= 1,
        n < pow(10, decimal_digits(n).len()),
        n > 0 ==> pow(10, (decimal_digits(n).len() - 1) as nat) <= n,
        n == 0 ==> decimal_digits(n).len() == 1,
        forall|i: int|
            0 <= i < decimal_digits(n).len() ==> #[trigger] decimal_digits(n)[i] as int == 48 + (
            n as int / pow(10, (decimal_digits(n).len() - 1 - i) as nat)) % 10,
{
    lemma_digits_len(n);
    lemma_pow10_is_pow(decimal_digits(n).len());
    lemma_pow10_is_pow((decimal_digits(n).len() - 1) as nat);
    assert forall|i: int| 0 <= i < decimal_digits(n).len() implies #[trigger] decimal_digits(
        n,
    )[i] as int == 48 + (n as int / pow(10, (decimal_digits(n).len() - 1 - i) as nat)) % 10 by {
        lemma_digit_at(n, i);
    }
}

/// Digits of a fixed width: the character at each position is the ASCII digit of that power of ten.
pub proof fn law_fixed_digits(n: nat, w: nat, i: int)
    requires
        0 <= i < w,
    ensures
        fixed_digits(n, w).len() == w,
        fixed_digits(n, w)[i] as int == 48 + (n as int / pow(10, (w - 1 - i) as nat)) % 10,
    decreases w,
{
    lemma_fixed_len(n, w);
    let k = (w - 1 - i) as nat;
    if k == 0 {
        lemma_pow0(10);
        lemma_fixed_len(n / 10, (w - 1) as nat);
    } else {
        lemma_place_below(n as int, 10, k);
        law_fixed_digits(n / 10, (w - 1) as nat, i);
        lemma_fixed_len(n / 10, (w - 1) as nat);
    }
}

/// The text of an integer: its digits, behind a minus exactly where it is negative.
pub proof fn law_signed_decimal(n: nat)
    ensures
        signed_decimal(n as int) == decimal_digits(n),
        n > 0 ==> signed_decimal(-(n as int)) == seq!['-'] + decimal_digits(n),
{
}

/// Chunks of `k` digits, most significant first: none are zero, and another chunk at the back shifts
/// the number by `k` decimal places.
pub proof fn law_chunks_value(limbs: Seq<u64>, x: u64, k: nat)
    ensures
        chunks_value(Seq::<u64>::empty(), k) == 0,
        chunks_value(limbs.push(x), k) == chunks_value(limbs, k) * pow(10, k) + x,
{
    lemma_pow10_is_pow(k);
    assert(limbs.push(x).drop_last() =~= limbs);
}

/// Little-endian bytes: the byte at each index is the digit of that power of 256, and nothing lies
/// above the last one.
pub proof fn law_bytes_places(s: Seq<u8>, i: int)
    requires
        0 <= i < s.len(),
    ensures
        (bytes_val(s) as int / pow(256, i as nat)) % 256 == s[i],
        bytes_val(s) < pow(256, s.len()),
    decreases s.len(),
{
    lemma_bytes_bound(s);
    lemma_pow256_is_pow(s.len());
    let v = bytes_val(s) as int;
    if i == 0 {
        lemma_pow0(256);
    } else {
        lemma_place_below(v, 256, i as nat);
        law_bytes_places(s.drop_first(), i - 1);
    }
}

/// Little-endian limbs: the limb at each index is the digit of that power of `2^64`, and nothing lies
/// above the last one.
pub proof fn law_limb_places(s: Seq<u64>, i: int)
    requires
        0 <= i < s.len(),
    ensures
        (limbs_val(s) as int / pow(0x1_0000_0000_0000_0000, i as nat)) % 0x1_0000_0000_0000_0000
            == s[i],
        limbs_val(s) < pow(0x1_0000_0000_0000_0000, s.len()),
    decreases s.len(),
{
    lemma_val_bound(s);
    lemma_bpow_is_pow(s.len());
    let v = limbs_val(s) as int;
    if i == 0 {
        lemma_pow0(0x1_0000_0000_0000_0000);
    } else {
        lemma_place_below(v, 0x1_0000_0000_0000_0000, i as nat);
        law_limb_places(s.drop_first(), i - 1);
    }
}

/// No bytes and no limbs are zero, and a canonical magnitude does not end in a zero limb.
pub proof fn law_no_places(s: Seq<u64>)
    ensures
        bytes_val(Seq::<u8>::empty()) == 0,
        limbs_val(Seq::<u64>::empty()) == 0,
        canonical(s) <==> s.len() == 0 || s[s.len() - 1] != 0,
{
}

/// The minimal bytes of a number spell it and do not end in a zero byte; no other such bytes do.
pub proof fn law_minimal_bytes(n: nat, s: Seq<u8>)
    ensures
        bytes_val(le_bytes(n)) == n,
        le_bytes(n).len() > 0 ==> le_bytes(n)[le_bytes(n).len() - 1] != 0,
        bytes_val(s) == n && (s.len() > 0 ==> s[s.len() - 1] != 0) ==> s == le_bytes(n),
{
    lemma_le_bytes_val(n);
    if stripped(s) {
        lemma_le_bytes_unique(s);
    }
}

/// The sign-magnitude encoding: one byte that is 1 for a negative number and 0 otherwise, and behind
/// it the magnitude, which does not end in a zero byte.
pub proof fn law_sign_magnitude(v: int)
    ensures
        sign_magnitude(v).len() > 0,
        v < 0 ==> sign_magnitude(v)[0] == 1 && bytes_val(sign_magnitude(v).skip(1)) == -v,
        v >= 0 ==> sign_magnitude(v)[0] == 0 && bytes_val(sign_magnitude(v).skip(1)) == v,
        sign_magnitude(v).len() > 1 ==> sign_magnitude(v)[sign_magnitude(v).len() - 1] != 0,
{
    let m = (if v < 0 {
        -v
    } else {
        v
    }) as nat;
    lemma_le_bytes_val(m);
    assert(sign_magnitude(v).skip(1) =~= le_bytes(m));
}

/// Reading sign and magnitude: any first byte but zero makes the number negative, trailing zero bytes
/// make no difference, and no bytes are zero.
pub proof fn law_sign_magnitude_value(sign: u8, magnitude: Seq<u8>)
    ensures
        sign_magnitude_value(Seq::<u8>::empty()) == 0,
        sign == 0 ==> sign_magnitude_value(seq![sign] + magnitude) == bytes_val(magnitude),
        sign != 0 ==> sign_magnitude_value(seq![sign] + magnitude) + bytes_val(magnitude) == 0,
        sign_magnitude_value(seq![sign] + magnitude.push(0)) == sign_magnitude_value(
            seq![sign] + magnitude,
        ),
{
    assert((seq![sign] + magnitude).skip(1) =~= magnitude);
    assert((seq![sign] + magnitude.push(0)).skip(1) =~= magnitude.push(0));
    super::codec::lemma_bytes_push(magnitude, 0);
    assert(pow256(magnitude.len()) * 0 == 0) by (nonlinear_arith);
}

/// Comparing encodings byte by byte: the sign decides first, then how many bytes the magnitudes have,
/// then their values; among negative numbers the larger magnitude comes first. No bytes at all
/// compare as a magnitude without bytes.
pub proof fn law_encoded_order_rules(s: u8, x: Seq<u8>, t: u8, y: Seq<u8>)
    ensures
        s == 0 && t != 0 ==> sign_magnitude_order(seq![s] + x, seq![t] + y) == Ordering::Greater,
        s != 0 && t == 0 ==> sign_magnitude_order(seq![s] + x, seq![t] + y) == Ordering::Less,
        s == 0 && t == 0 ==> (sign_magnitude_order(seq![s] + x, seq![t] + y) == Ordering::Less <==> (
        x.len() < y.len() || (x.len() == y.len() && bytes_val(x) < bytes_val(y)))),
        s == 0 && t == 0 ==> (sign_magnitude_order(seq![s] + x, seq![t] + y) == Ordering::Greater
            <==> (x.len() > y.len() || (x.len() == y.len() && bytes_val(x) > bytes_val(y)))),
        s != 0 && t != 0 ==> (sign_magnitude_order(seq![s] + x, seq![t] + y) == Ordering::Greater
            <==> (x.len() < y.len() || (x.len() == y.len() && bytes_val(x) < bytes_val(y)))),
        s != 0 && t != 0 ==> (sign_magnitude_order(seq![s] + x, seq![t] + y) == Ordering::Less <==> (
        x.len() > y.len() || (x.len() == y.len() && bytes_val(x) > bytes_val(y)))),
        sign_magnitude_order(Seq::<u8>::empty(), seq![t] + y) == sign_magnitude_order(
            seq![0u8],
            seq![t] + y,
        ),
        sign_magnitude_order(seq![s] + x, Seq::<u8>::empty()) == sign_magnitude_order(
            seq![s] + x,
            seq![0u8],
        ),
        sign_magnitude_order(Seq::<u8>::empty(), Seq::<u8>::empty()) == Ordering::Equal,
{
    assert((seq![s] + x).skip(1) =~= x);
    assert((seq![t] + y).skip(1) =~= y);
    assert(seq![0u8].skip(1) =~= Seq::<u8>::empty());
}

/// Two's complement: the value is the unsigned one, or less by `256^n` where the top bit is set, and
/// so lies in the symmetric range of `n` bytes.
pub proof fn law_twos_value(s: Seq<u8>)
    ensures
        s.len() == 0 ==> twos_value(s) == 0,
        s.len() > 0 && s[s.len() - 1] < 128 ==> twos_value(s) == bytes_val(s),
        s.len() > 0 && s[s.len() - 1] >= 128 ==> twos_value(s) + pow(256, s.len()) == bytes_val(s),
        -pow(256, s.len()) <= 2 * twos_value(s) < pow(256, s.len()),
        twos_value(s) < 0 <==> s.len() > 0 && s[s.len() - 1] >= 128,
{
    lemma_pow256_is_pow(s.len());
    lemma_twos_range(s);
    lemma_bytes_bound(s);
}

/// Two's complement is minimal exactly where dropping the last byte would change the value; so each
/// value has one minimal encoding.
pub proof fn law_twos_minimal(s: Seq<u8>, t: Seq<u8>)
    ensures
        s.len() > 0 ==> (twos_minimal(s) <==> twos_value(s.drop_last()) != twos_value(s)),
        s.len() == 0 ==> twos_minimal(s),
        twos_minimal(s) && twos_minimal(t) && twos_value(s) == twos_value(t) ==> s == t,
{
    if twos_minimal(s) && twos_minimal(t) && twos_value(s) == twos_value(t) {
        lemma_twos_unique(s, t);
    }
    if s.len() > 0 {
        let r = s.drop_last();
        let p = pow256((s.len() - 1) as nat) as int;
        let x = s.last() as int;
        lemma_bytes_last(s);
        lemma_pow256_pos((s.len() - 1) as nat);
        assert(pow256(s.len()) == 256 * p);
        assert(r.len() > 0 ==> r.last() == s[s.len() - 2]);
        if x == 0 {
            assert(p * x == 0) by (nonlinear_arith)
                requires
                    x == 0,
            ;
        } else if x == 255 {
            assert(p * x == 255 * p) by (nonlinear_arith)
                requires
                    x == 255,
            ;
        } else {
            assert(p * x >= p) by (nonlinear_arith)
                requires
                    x >= 1,
                    p >= 1,
            ;
            assert(p * x <= 254 * p) by (nonlinear_arith)
                requires
                    x <= 254,
                    p >= 1,
            ;
        }
        if x >= 128 {
            assert(p * x >= 128 * p) by (nonlinear_arith)
                requires
                    x >= 128,
                    p >= 1,
            ;
        } else {
            assert(p * x <= 127 * p) by (nonlinear_arith)
                requires
                    x <= 127,
                    p >= 1,
            ;
        }
        if r.len() > 0 {
            lemma_bytes_bound(r);
        }
    }
}

/// The bit length of a number is the least power of two that exceeds it.
pub proof fn law_bit_length(n: nat)
    ensures
        n < pow2(bit_length(n)),
        n > 0 ==> bit_length(n) > 0 && pow2((bit_length(n) - 1) as nat) <= n,
        n == 0 ==> bit_length(n) == 0,
{
    lemma_bit_length(n);
}

/// The greatest common divisor leaves no remainder in either number, and every `d` that leaves none
/// in either leaves none in it. Of two zeros it is zero.
pub proof fn law_gcd(a: nat, b: nat, d: nat)
    requires
        d > 0,
    ensures
        gcd(0, 0) == 0,
        a > 0 || b > 0 ==> gcd(a, b) > 0 && a % gcd(a, b) == 0 && b % gcd(a, b) == 0,
        a % d == 0 && b % d == 0 ==> gcd(a, b) % d == 0,
{
    let g = gcd(a, b);
    lemma_gcd_divides(a, b);
    let x = choose|k: nat| a == #[trigger] times(g, k);
    let y = choose|k: nat| b == #[trigger] times(g, k);
    if a > 0 || b > 0 {
        assert(g > 0) by (nonlinear_arith)
            requires
                a == g * x,
                b == g * y,
                a > 0 || b > 0,
                g >= 0,
        ;
        assert(x * g == g * x && y * g == g * y) by (nonlinear_arith);
        lemma_fundamental_div_mod_converse(a as int, g as int, x as int, 0);
        lemma_fundamental_div_mod_converse(b as int, g as int, y as int, 0);
    }
    if a % d == 0 && b % d == 0 {
        lemma_fundamental_div_mod(a as int, d as int);
        lemma_fundamental_div_mod(b as int, d as int);
        lemma_divides_intro(d, a, a / d);
        lemma_divides_intro(d, b, b / d);
        lemma_gcd_greatest(d, a, b);
        let z = choose|k: nat| g == #[trigger] times(d, k);
        assert(z * d == d * z) by (nonlinear_arith);
        lemma_fundamental_div_mod_converse(g as int, d as int, z as int, 0);
    }
}

} // verus!
