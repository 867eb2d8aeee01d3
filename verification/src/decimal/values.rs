//! What a coefficient and an exponent denote, in terms of powers of ten alone.
use super::laws::{law_add_exact, law_equal_means_same, law_order_at_any_scale};
use super::literal::{digits_value, law_literal_value, Literal};
use super::{
    common, decimal_order, decimal_text, law_normal_value, lemma_digits_value_bound,
    lemma_normal_fixed, lemma_normal_iff, normal, product, scaled, sum, Decimal,
};
use crate::bigint::places::law_order;
use crate::bigint::signed_decimal;
use crate::digits::{decimal_digits, lemma_pow10_is_pow, lemma_pow10_mono, lemma_pow10_values};
use std::cmp::Ordering;
use vstd::arithmetic::power::pow;
use vstd::prelude::*;
use vstd::std_specs::cmp::{PartialEqSpec, PartialOrdSpec};

verus! {

proof fn lemma_scaled(c: int, e: int, m: int)
    requires
        m <= e,
    ensures
        scaled(c, e, m) == c * pow(10, (e - m) as nat),
{
    lemma_pow10_is_pow((e - m) as nat);
}

/// Canonicalizing: zero becomes `0 * 10^0`. Any other number keeps its value while its exponent only
/// rises, and ends without a trailing zero digit unless the exponent is at its maximum.
pub proof fn law_canonical_form(c: int, e: int)
    requires
        e <= i64::MAX,
    ensures
        c == 0 ==> normal(c, e) == (0int, 0int),
        c != 0 ==> e <= normal(c, e).1 <= i64::MAX,
        c != 0 ==> normal(c, e).0 * pow(10, (normal(c, e).1 - e) as nat) == c,
        c != 0 ==> normal(c, e).1 == i64::MAX || normal(c, e).0 % 10 != 0,
{
    if c != 0 {
        let n = normal(c, e);
        lemma_normal_fixed(c, e);
        lemma_normal_iff(n.0, n.1);
        law_normal_value(c, e, e);
        lemma_scaled(n.0, n.1, e);
        lemma_pow10_values();
        assert(c * 1 == c);
    }
}

/// The number that a literal is read as: the integer digits followed by the fraction digits, with the
/// literal's sign, times ten to the written exponent `e` less the number of fraction digits, whatever
/// fraction, marker and sign are written.
pub proof fn law_literal_denotes(l: Literal, e: int)
    requires
        l.valid(),
        l.in_range(),
        match l.exp {
            None => e == 0,
            Some(x) => if x.sign == Some(45u8) {
                e + digits_value(x.digits) == 0
            } else {
                e == digits_value(x.digits)
            },
        },
    ensures
        ({
            let d = normal(l.coefficient(), l.exponent());
            let v = if l.neg {
                -(digits_value(l.int + l.frac) as int)
            } else {
                digits_value(l.int + l.frac) as int
            };
            &&& v == 0 ==> d == (0int, 0int)
            &&& v != 0 ==> {
                &&& e - l.frac.len() <= d.1 <= i64::MAX
                &&& d.0 * pow(10, (d.1 - (e - l.frac.len())) as nat) == v
                &&& d.1 == i64::MAX || d.0 % 10 != 0
            }
        }),
{
    law_literal_value(l);
    if l.exp is Some {
        let digits = l.exp->Some_0.digits;
        lemma_digits_value_bound(digits);
        lemma_pow10_mono(digits.len(), 18);
        lemma_pow10_values();
    }
    law_canonical_form(l.coefficient(), l.exponent());
}

/// The form that the numbers of the library have: `0 * 10^0`, or a coefficient that does not end in a
/// zero digit unless the exponent is at its maximum.
pub proof fn law_decimal_form(d: &Decimal)
    ensures
        i64::MIN <= d@.1 <= i64::MAX,
        d@.0 == 0 ==> d@.1 == 0,
        d@.0 != 0 ==> d@.1 == i64::MAX || d@.0 % 10 != 0,
{
    d.lemma_canonical();
    lemma_normal_iff(d@.0, d@.1);
}

/// Addition adds the numbers: written at any exponent that is not above either operand's, the sum is
/// the sum of the two. It is in canonical form.
pub proof fn law_sum(x: (int, int), y: (int, int), m: int)
    requires
        m <= x.1 <= i64::MAX,
        m <= y.1 <= i64::MAX,
        x.0 == 0 ==> x.1 == 0,
        y.0 == 0 ==> y.1 == 0,
        x.0 != 0 ==> x.1 == i64::MAX || x.0 % 10 != 0,
        y.0 != 0 ==> y.1 == i64::MAX || y.0 % 10 != 0,
    ensures
        ({
            let a = x.0 * pow(10, (x.1 - m) as nat);
            let b = y.0 * pow(10, (y.1 - m) as nat);
            let r = sum(x, y);
            &&& a + b == 0 ==> r == (0int, 0int)
            &&& a + b != 0 ==> {
                &&& m <= r.1 <= i64::MAX
                &&& r.0 * pow(10, (r.1 - m) as nat) == a + b
                &&& r.1 == i64::MAX || r.0 % 10 != 0
            }
        }),
{
    let r = sum(x, y);
    let k = common(x.1, y.1);
    lemma_scaled(x.0, x.1, m);
    lemma_scaled(y.0, y.1, m);
    law_add_exact(x, y, m);
    lemma_normal_iff(x.0, x.1);
    lemma_normal_iff(y.0, y.1);
    let s = scaled(x.0, x.1, k) + scaled(y.0, y.1, k);
    lemma_normal_fixed(s, k);
    lemma_normal_iff(r.0, r.1);
    if r.0 == 0 {
        assert(0 * crate::digits::pow10((r.1 - m) as nat) == 0) by (nonlinear_arith);
    } else {
        lemma_scaled(r.0, r.1, m);
        let p = pow(10, (r.1 - m) as nat);
        vstd::arithmetic::power::lemma_pow_positive(10, (r.1 - m) as nat);
        let c = r.0;
        assert(c * p != 0) by (nonlinear_arith)
            requires
                c != 0,
                p > 0,
        ;
    }
}

/// Multiplication multiplies the coefficients and adds the exponents, and canonicalizes; an exponent
/// out of range is held at the end of the range.
pub proof fn law_product(x: (int, int), y: (int, int))
    ensures
        ({
            let c = x.0 * y.0;
            let e = x.1 + y.1;
            let r = product(x, y);
            &&& c == 0 ==> r == (0int, 0int)
            &&& c != 0 && e >= i64::MAX ==> r == (c, i64::MAX as int)
            &&& c != 0 && i64::MIN <= e < i64::MAX ==> {
                &&& e <= r.1 <= i64::MAX
                &&& r.0 * pow(10, (r.1 - e) as nat) == c
                &&& r.1 == i64::MAX || r.0 % 10 != 0
            }
            &&& c != 0 && e < i64::MIN ==> {
                &&& i64::MIN <= r.1 <= i64::MAX
                &&& r.0 * pow(10, (r.1 - i64::MIN) as nat) == c
                &&& r.1 == i64::MAX || r.0 % 10 != 0
            }
        }),
{
    let e = x.1 + y.1;
    if e < i64::MIN {
        law_canonical_form(x.0 * y.0, i64::MIN as int);
    } else if e < i64::MAX {
        law_canonical_form(x.0 * y.0, e);
    } else {
        law_canonical_form(x.0 * y.0, i64::MAX as int);
    }
}

/// How two numbers compare: as their coefficients do once both are written at one exponent, which is
/// `i` below the first and `j` below the second.
pub proof fn law_decimal_order(x: (int, int), y: (int, int), i: nat, j: nat)
    requires
        x.1 - i == y.1 - j,
    ensures
        decimal_order(x, y) == Ordering::Less <==> x.0 * pow(10, i) < y.0 * pow(10, j),
        decimal_order(x, y) == Ordering::Equal <==> x.0 * pow(10, i) == y.0 * pow(10, j),
        decimal_order(x, y) == Ordering::Greater <==> x.0 * pow(10, i) > y.0 * pow(10, j),
{
    let m = x.1 - i;
    lemma_scaled(x.0, x.1, m);
    lemma_scaled(y.0, y.1, m);
    law_order_at_any_scale(x, y, m);
    law_order(scaled(x.0, x.1, m), scaled(y.0, y.1, m));
}

/// `partial_cmp` always answers, and `<`, `==` and `>` go by the values: as the coefficients compare
/// once both numbers are written at one exponent. This is also what `cmp` answers.
pub proof fn law_partial_order(a: &Decimal, b: &Decimal, i: nat, j: nat)
    requires
        a@.1 - i == b@.1 - j,
    ensures
        Decimal::obeys_partial_cmp_spec(),
        a.partial_cmp_spec(b) == Some(decimal_order(a@, b@)),
        a.partial_cmp_spec(b) == Some(Ordering::Less) <==> a@.0 * pow(10, i) < b@.0 * pow(10, j),
        a.partial_cmp_spec(b) == Some(Ordering::Equal) <==> a@.0 * pow(10, i) == b@.0 * pow(10, j),
        a.partial_cmp_spec(b) == Some(Ordering::Greater) <==> a@.0 * pow(10, i) > b@.0 * pow(
            10,
            j,
        ),
{
    law_decimal_order(a@, b@, i, j);
}

/// The comparison law at every pair of scales at once.
pub proof fn lemma_order_at_any_scale(x: (int, int), y: (int, int))
    ensures
        forall|i: nat, j: nat|
            x.1 - i == y.1 - j ==> (decimal_order(x, y) == Ordering::Less <==> x.0 * #[trigger] pow(
                10,
                i,
            ) < y.0 * #[trigger] pow(10, j)),
        forall|i: nat, j: nat|
            x.1 - i == y.1 - j ==> (decimal_order(x, y) == Ordering::Equal <==> x.0 * #[trigger] pow(
                10,
                i,
            ) == y.0 * #[trigger] pow(10, j)),
        forall|i: nat, j: nat|
            x.1 - i == y.1 - j ==> (decimal_order(x, y) == Ordering::Greater <==> x.0 * #[trigger] pow(
                10,
                i,
            ) > y.0 * #[trigger] pow(10, j)),
{
    assert forall|i: nat, j: nat| x.1 - i == y.1 - j implies (decimal_order(x, y)
        == Ordering::Less <==> x.0 * #[trigger] pow(10, i) < y.0 * #[trigger] pow(10, j)) by {
        law_decimal_order(x, y, i, j);
    }
    assert forall|i: nat, j: nat| x.1 - i == y.1 - j implies (decimal_order(x, y)
        == Ordering::Equal <==> x.0 * #[trigger] pow(10, i) == y.0 * #[trigger] pow(10, j)) by {
        law_decimal_order(x, y, i, j);
    }
    assert forall|i: nat, j: nat| x.1 - i == y.1 - j implies (decimal_order(x, y)
        == Ordering::Greater <==> x.0 * #[trigger] pow(10, i) > y.0 * #[trigger] pow(10, j)) by {
        law_decimal_order(x, y, i, j);
    }
}

/// Two numbers of the library are the same pair exactly when their coefficients are equal, once both
/// are written at one exponent.
pub proof fn law_same_value(a: &Decimal, b: &Decimal, i: nat, j: nat)
    requires
        a@.1 - i == b@.1 - j,
    ensures
        a@ == b@ <==> a@.0 * pow(10, i) == b@.0 * pow(10, j),
{
    a.lemma_canonical();
    b.lemma_canonical();
    law_equal_means_same(a@, b@);
    law_decimal_order(a@, b@, i, j);
    let k = common(a@.1, b@.1);
    law_order(scaled(a@.0, a@.1, k), scaled(b@.0, b@.1, k));
}

/// [`law_same_value`] at every pair of scales at once.
pub proof fn lemma_same_at_any_scale(a: &Decimal, b: &Decimal)
    ensures
        forall|i: nat, j: nat|
            a@.1 - i == b@.1 - j ==> (a@ == b@ <==> a@.0 * #[trigger] pow(10, i) == b@.0
                * #[trigger] pow(10, j)),
{
    assert forall|i: nat, j: nat| a@.1 - i == b@.1 - j implies (a@ == b@ <==> a@.0 * #[trigger] pow(
        10,
        i,
    ) == b@.0 * #[trigger] pow(10, j)) by {
        law_same_value(a, b, i, j);
    }
}

/// `==` goes by the values: two numbers are equal exactly when their coefficients are, once both are
/// written at one exponent.
pub proof fn law_equality(a: &Decimal, b: &Decimal, i: nat, j: nat)
    requires
        a@.1 - i == b@.1 - j,
    ensures
        Decimal::obeys_eq_spec(),
        a.eq_spec(b) <==> a@.0 * pow(10, i) == b@.0 * pow(10, j),
        a.eq_spec(b) <==> a@ == b@,
{
    law_same_value(a, b, i, j);
}

/// The text of a number. Up to thirty padding zeros are written out; beyond that the digits are
/// followed by the exponent.
pub proof fn law_decimal_text(c: int, e: int)
    requires
        c > 0,
    ensures
        decimal_text(0, e) == seq!['0'],
        decimal_text(-c, e) == seq!['-'] + decimal_text(c, e),
        ({
            let d = decimal_digits(c as nat);
            let l = d.len() as int;
            &&& e == 0 ==> decimal_text(c, e) == d
            &&& 0 < e <= 30 ==> decimal_text(c, e) == d + Seq::new(e as nat, |i: int| '0')
            &&& -l < e < 0 ==> decimal_text(c, e) == d.take(l + e) + seq!['.'] + d.skip(l + e)
            &&& -l - 30 <= e <= -l ==> decimal_text(c, e) == seq!['0', '.'] + Seq::new(
                (-e - l) as nat,
                |i: int| '0',
            ) + d
            &&& e > 30 || e < -l - 30 ==> decimal_text(c, e) == d + seq!['e'] + signed_decimal(e)
        }),
{
    crate::digits::lemma_digits_len(c as nat);
    let d = decimal_digits(c as nat);
    let l = d.len() as int;
    if 0 < e <= 30 {
        assert(super::zeros(e as nat) =~= Seq::new(e as nat, |i: int| '0'));
    } else if -l - 30 <= e <= -l {
        assert(super::zeros((-e - l) as nat) =~= Seq::new((-e - l) as nat, |i: int| '0'));
    }
}

} // verus!
