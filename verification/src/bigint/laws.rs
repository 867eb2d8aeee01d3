//! What holds of integers across operations.
use super::codec::{
    le_bytes, lemma_bytes_bound, lemma_bytes_last, lemma_le_bytes_val, lemma_pow256_mono,
    lemma_pow256_values, pow256, sign_magnitude,
};
use super::gcd::{gcd, lemma_gcd_divides, lemma_gcd_scale, times};
use super::limbs::lemma_canonical_unique;
use super::{
    chunks_value, magnitude_order, magnitude_part, order_of, quotient, remainder,
    sign_magnitude_order, Big,
};
use crate::digits::{
    decimal_digits, fixed_digits, lemma_digits_len, lemma_digits_split, lemma_pow10_pos, pow10,
};
use vstd::math::abs;
use vstd::prelude::*;
use vstd::std_specs::cmp::PartialEqSpec;

verus! {

/// Canonical form: two values are equal in memory exactly when they are the same number.
pub proof fn law_unique_form(a: &Big, b: &Big)
    requires
        a.wf(),
        b.wf(),
    ensures
        a.same(b) <==> a@ == b@,
{
    a.lemma_parts();
    b.lemma_parts();
    if a@ == b@ {
        lemma_canonical_unique(a.mag@, b.mag@);
    }
}

/// Two integers are `==` exactly when they are the same number, sign and all; so a number is never
/// equal to its opposite unless it is zero.
pub proof fn law_equality(a: &Big, b: &Big)
    requires
        a.wf(),
        b.wf(),
    ensures
        Big::obeys_eq_spec(),
        a.eq_spec(b) <==> a@ == b@,
        a@ + b@ == 0 && a@ != 0 ==> !a.eq_spec(b),
{
    law_unique_form(a, b);
}

/// The number of decimal digits: zero has one, and any other number lies between the powers of ten
/// that the number of its digits names.
pub proof fn law_digit_count(v: int)
    ensures
        v == 0 ==> decimal_digits(abs(v)).len() == 1,
        v != 0 ==> pow10((decimal_digits(abs(v)).len() - 1) as nat) <= abs(v),
        abs(v) < pow10(decimal_digits(abs(v)).len()),
{
    lemma_digits_len(abs(v));
}

/// Truncating division: the dividend is the quotient times the divisor plus the remainder, which is
/// smaller than the divisor in magnitude and has the dividend's sign.
pub proof fn law_division(a: int, b: int)
    requires
        b != 0,
    ensures
        a == quotient(a, b) * b + remainder(a, b),
        abs(remainder(a, b)) < abs(b),
        remainder(a, b) != 0 ==> (remainder(a, b) < 0 <==> a < 0),
{
    let m = abs(a) as int;
    let d = abs(b) as int;
    vstd::arithmetic::div_mod::lemma_fundamental_div_mod(m, d);
    vstd::arithmetic::div_mod::lemma_mod_bound(m, d);
    let q = m / d;
    assert(d * q == q * d) by (nonlinear_arith);
    assert((-q) * b == -(q * b)) by (nonlinear_arith);
    assert(q * (-d) == -(q * d)) by (nonlinear_arith);
    assert((-q) * (-d) == q * d) by (nonlinear_arith);
}

/// Dividing two numbers by their gcd leaves numbers with no common factor.
pub proof fn law_lowest_terms(a: nat, b: nat)
    requires
        a > 0 || b > 0,
    ensures
        gcd(a, b) > 0,
        gcd(a / gcd(a, b), b / gcd(a, b)) == 1,
        a == gcd(a, b) * (a / gcd(a, b)),
        b == gcd(a, b) * (b / gcd(a, b)),
{
    let g = gcd(a, b);
    lemma_gcd_divides(a, b);
    let x = choose|k: nat| a == #[trigger] times(g, k);
    let y = choose|k: nat| b == #[trigger] times(g, k);
    assert(g > 0) by (nonlinear_arith)
        requires
            a == g * x,
            b == g * y,
            a > 0 || b > 0,
            g >= 0,
    ;
    assert(x * g + 0 == a) by (nonlinear_arith)
        requires
            a == g * x,
    ;
    assert(y * g + 0 == b) by (nonlinear_arith)
        requires
            b == g * y,
    ;
    vstd::arithmetic::div_mod::lemma_fundamental_div_mod_converse(a as int, g as int, x as int, 0);
    vstd::arithmetic::div_mod::lemma_fundamental_div_mod_converse(b as int, g as int, y as int, 0);
    lemma_gcd_scale(g, x, y);
    let h = gcd(x, y);
    assert(h == 1) by (nonlinear_arith)
        requires
            g == g * h,
            g > 0,
    ;
}

/// The encoding of a number that fits `n` magnitude bits takes no more bytes than those bits.
pub proof fn law_encoding_length(v: int, n: nat)
    requires
        abs(v) < pow256(n),
    ensures
        sign_magnitude(v).len() <= n + 1,
{
    let m = abs(v);
    let s = le_bytes(m);
    lemma_le_bytes_val(m);
    if s.len() > n {
        lemma_bytes_last(s);
        lemma_pow256_mono(n, (s.len() - 1) as nat);
        let p = pow256((s.len() - 1) as nat);
        let x = s.last() as nat;
        assert(p * x >= p) by (nonlinear_arith)
            requires
                x >= 1,
                p >= 0,
        ;
    }
}

/// Narrowing through the byte encoding accepts exactly the numbers that fit: a 64-bit number's
/// encoding is within nine bytes and a 128-bit number's within seventeen.
pub proof fn law_narrow_encodings(v: int)
    ensures
        i64::MIN <= v <= i64::MAX ==> sign_magnitude(v).len() <= 9,
        i128::MIN <= v <= i128::MAX ==> sign_magnitude(v).len() <= 17,
{
    lemma_pow256_values();
    if i64::MIN <= v <= i64::MAX {
        law_encoding_length(v, 8);
    }
    if i128::MIN <= v <= i128::MAX {
        law_encoding_length(v, 16);
    }
}

/// Of two minimal magnitudes the longer one is the larger.
proof fn lemma_longer_is_larger(a: nat, b: nat)
    requires
        le_bytes(a).len() < le_bytes(b).len(),
    ensures
        a < b,
{
    let s = le_bytes(a);
    let t = le_bytes(b);
    lemma_le_bytes_val(a);
    lemma_le_bytes_val(b);
    lemma_bytes_bound(s);
    lemma_bytes_last(t);
    lemma_pow256_mono(s.len(), (t.len() - 1) as nat);
    let p = pow256((t.len() - 1) as nat);
    let x = t.last() as nat;
    assert(p * x >= p) by (nonlinear_arith)
        requires
            x >= 1,
            p >= 0,
    ;
}

proof fn lemma_magnitude_order(a: nat, b: nat)
    ensures
        magnitude_order(le_bytes(a), le_bytes(b)) == order_of(a + 0int, b + 0int),
{
    lemma_le_bytes_val(a);
    lemma_le_bytes_val(b);
    if le_bytes(a).len() < le_bytes(b).len() {
        lemma_longer_is_larger(a, b);
    } else if le_bytes(b).len() < le_bytes(a).len() {
        lemma_longer_is_larger(b, a);
    }
}

proof fn lemma_encoding_parts(v: int)
    ensures
        sign_magnitude(v).len() > 0,
        sign_magnitude(v)[0] != 0 <==> v < 0,
        magnitude_part(sign_magnitude(v)) == le_bytes(abs(v)),
{
    assert(sign_magnitude(v).skip(1) =~= le_bytes(abs(v)));
}

/// Comparing two canonical encodings is comparing the numbers.
pub proof fn law_encoded_order(x: int, y: int)
    ensures
        sign_magnitude_order(sign_magnitude(x), sign_magnitude(y)) == order_of(x, y),
{
    lemma_encoding_parts(x);
    lemma_encoding_parts(y);
    lemma_magnitude_order(abs(x), abs(y));
    lemma_magnitude_order(abs(y), abs(x));
}

/// The fixed-width digits of all limbs but the first.
pub open spec fn chunk_digits(limbs: Seq<u64>, k: nat) -> Seq<char>
    decreases limbs.len(),
{
    if limbs.len() <= 1 {
        seq![]
    } else {
        chunk_digits(limbs.drop_last(), k) + fixed_digits(limbs.last() as nat, k)
    }
}

/// Building a number from `k`-digit chunks undoes cutting its decimal text into such chunks.
pub proof fn law_chunks_are_digits(limbs: Seq<u64>, k: nat)
    requires
        limbs.len() > 0,
        limbs[0] > 0,
        forall|i: int| 0 <= i < limbs.len() ==> limbs[i] < pow10(k),
    ensures
        decimal_digits(chunks_value(limbs, k)) == decimal_digits(limbs[0] as nat) + chunk_digits(
            limbs,
            k,
        ),
        chunks_value(limbs, k) > 0,
    decreases limbs.len(),
{
    lemma_pow10_pos(k);
    let rest = limbs.drop_last();
    if limbs.len() == 1 {
        assert(chunks_value(rest, k) == 0);
        assert(0 * pow10(k) == 0) by (nonlinear_arith);
        assert(decimal_digits(limbs[0] as nat) + chunk_digits(limbs, k) =~= decimal_digits(
            limbs[0] as nat,
        ));
    } else {
        assert forall|i: int| 0 <= i < rest.len() implies rest[i] < pow10(k) by {
            assert(rest[i] == limbs[i]);
        }
        law_chunks_are_digits(rest, k);
        lemma_digits_split(chunks_value(rest, k), limbs.last() as nat, k);
        let h = chunks_value(rest, k);
        assert(h * pow10(k) >= 1) by (nonlinear_arith)
            requires
                h >= 1,
                pow10(k) >= 1,
        ;
        assert(decimal_digits(limbs[0] as nat) + chunk_digits(rest, k) + fixed_digits(
            limbs.last() as nat,
            k,
        ) =~= decimal_digits(limbs[0] as nat) + chunk_digits(limbs, k));
    }
}

} // verus!
