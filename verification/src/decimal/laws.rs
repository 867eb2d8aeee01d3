//! What holds of decimals across operations.
use super::literal::{all_digits, digits_value, is_digit, Exponent, Literal};
use super::{
    common, decimal_order, decimal_text, digit_text, law_normal_value, lemma_digits_text,
    lemma_normal_fixed, lemma_normal_iff, magnitude_text, normal, product, scaled, sum, text_value,
    zeros, PLAIN_PAD,
};
use crate::bigint::order_of;
use crate::digits::{
    decimal_digits, lemma_digits_len, lemma_pow10_add, lemma_pow10_mono, lemma_pow10_pos,
    lemma_pow10_values, pow10,
};
use vstd::math::abs;
use vstd::prelude::*;

verus! {

/// A number in canonical form with an exponent that fits.
pub open spec fn is_canonical(x: (int, int)) -> bool {
    &&& i64::MIN <= x.1 <= i64::MAX
    &&& normal(x.0, x.1) == x
}

/// Scaling to a lower exponent multiplies by a power of ten.
proof fn lemma_scaled_lower(c: int, e: int, m: int, k: int)
    requires
        k <= m <= e,
    ensures
        scaled(c, e, k) == scaled(c, e, m) * pow10((m - k) as nat),
{
    lemma_pow10_add((e - m) as nat, (m - k) as nat);
    let p = pow10((e - m) as nat) as int;
    let q = pow10((m - k) as nat) as int;
    assert(((e - m) + (m - k)) as nat == (e - k) as nat);
    assert(c * (p * q) == (c * p) * q) by (nonlinear_arith);
}

/// Addition is exact: at every exponent not above the operands', the sum scales to the sum.
pub proof fn law_add_exact(x: (int, int), y: (int, int), m: int)
    requires
        x.1 <= i64::MAX,
        y.1 <= i64::MAX,
        m <= x.1,
        m <= y.1,
    ensures
        scaled(sum(x, y).0, sum(x, y).1, m) == scaled(x.0, x.1, m) + scaled(y.0, y.1, m),
{
    let k = common(x.1, y.1);
    let s = scaled(x.0, x.1, k) + scaled(y.0, y.1, k);
    assert(0 * pow10((x.1 - m) as nat) == 0) by (nonlinear_arith);
    assert(0 * pow10((y.1 - m) as nat) == 0) by (nonlinear_arith);
    if x.0 != 0 && y.0 != 0 {
        law_normal_value(s, k, m);
        lemma_scaled_lower(x.0, x.1, k, m);
        lemma_scaled_lower(y.0, y.1, k, m);
        let p = pow10((k - m) as nat) as int;
        let a = scaled(x.0, x.1, k);
        let b = scaled(y.0, y.1, k);
        assert((a + b) * p == a * p + b * p) by (nonlinear_arith);
        if s == 0 {
            let r = sum(x, y);
            assert(0 * pow10((r.1 - m) as nat) == 0) by (nonlinear_arith);
        }
    }
}

/// Multiplication is exact wherever the exponents' sum fits.
pub proof fn law_mul_exact(x: (int, int), y: (int, int), m: int, n: int)
    requires
        i64::MIN <= x.1 + y.1 <= i64::MAX,
        m <= x.1,
        n <= y.1,
    ensures
        scaled(product(x, y).0, product(x, y).1, m + n) == scaled(x.0, x.1, m) * scaled(y.0, y.1, n),
{
    let c = x.0 * y.0;
    let e = x.1 + y.1;
    law_normal_value(c, e, m + n);
    lemma_pow10_add((x.1 - m) as nat, (y.1 - n) as nat);
    let p = pow10((x.1 - m) as nat) as int;
    let q = pow10((y.1 - n) as nat) as int;
    let a = x.0;
    let b = y.0;
    assert(((x.1 - m) + (y.1 - n)) as nat == (e - (m + n)) as nat);
    assert((a * b) * (p * q) == (a * p) * (b * q)) by (nonlinear_arith);
    if c == 0 {
        let r = product(x, y);
        assert(0 * pow10((r.1 - (m + n)) as nat) == 0) by (nonlinear_arith);
    }
}

/// Canonical form is unique: two canonical numbers of equal value are the same.
pub proof fn law_equal_means_same(x: (int, int), y: (int, int))
    requires
        is_canonical(x),
        is_canonical(y),
    ensures
        scaled(x.0, x.1, common(x.1, y.1)) == scaled(y.0, y.1, common(x.1, y.1)) <==> x == y,
{
    lemma_pow10_values();
    lemma_normal_iff(x.0, x.1);
    lemma_normal_iff(y.0, y.1);
    if x.1 < y.1 {
        lemma_equal_exponents(x, y);
    } else if y.1 < x.1 {
        lemma_equal_exponents(y, x);
    } else {
        assert(x.0 * 1 == x.0);
        assert(y.0 * 1 == y.0);
    }
}

proof fn lemma_equal_exponents(x: (int, int), y: (int, int))
    requires
        is_canonical(x),
        is_canonical(y),
        x.1 < y.1,
    ensures
        scaled(x.0, x.1, x.1) != scaled(y.0, y.1, x.1),
{
    lemma_pow10_values();
    lemma_normal_iff(x.0, x.1);
    lemma_normal_iff(y.0, y.1);
    let k = (y.1 - x.1) as nat;
    let p = pow10((k - 1) as nat) as int;
    let b = y.0;
    assert(x.0 * 1 == x.0);
    assert(b * (10 * p) == 10 * (b * p)) by (nonlinear_arith);
    lemma_pow10_pos((k - 1) as nat);
    if x.0 == 0 {
        assert(b * p != 0) by (nonlinear_arith)
            requires
                b != 0,
                p >= 1,
        ;
    }
}

/// Comparison does not depend on the exponent at which it is made, so it is a total order.
pub proof fn law_order_at_any_scale(x: (int, int), y: (int, int), m: int)
    requires
        m <= x.1,
        m <= y.1,
    ensures
        order_of(scaled(x.0, x.1, m), scaled(y.0, y.1, m)) == decimal_order(x, y),
{
    lemma_order_scales(x, y, m);
}

proof fn lemma_order_scales(x: (int, int), y: (int, int), m: int)
    requires
        m <= x.1,
        m <= y.1,
    ensures
        ({
            let k = common(x.1, y.1);
            let a = scaled(x.0, x.1, k);
            let b = scaled(y.0, y.1, k);
            let u = scaled(x.0, x.1, m);
            let v = scaled(y.0, y.1, m);
            (u < v <==> a < b) && (u == v <==> a == b)
        }),
{
    let k = common(x.1, y.1);
    lemma_scaled_lower(x.0, x.1, k, m);
    lemma_scaled_lower(y.0, y.1, k, m);
    lemma_pow10_pos((k - m) as nat);
    let p = pow10((k - m) as nat) as int;
    let a = scaled(x.0, x.1, k);
    let b = scaled(y.0, y.1, k);
    assert(a < b ==> a * p < b * p) by (nonlinear_arith)
        requires
            p >= 1,
    ;
    assert(a > b ==> a * p > b * p) by (nonlinear_arith)
        requires
            p >= 1,
    ;
}

/// Subtracting what was added gives the number back.
pub proof fn law_add_then_sub(x: (int, int), y: (int, int))
    requires
        is_canonical(x),
        is_canonical(y),
    ensures
        sum(sum(x, y), (-y.0, y.1)) == x,
{
    let s = sum(x, y);
    let ny = (-y.0, y.1);
    lemma_sum_canonical(x, y);
    lemma_normal_iff(y.0, y.1);
    lemma_normal_iff(ny.0, ny.1);
    lemma_sum_canonical(s, ny);
    let r = sum(s, ny);
    let k = common(x.1, y.1);
    let m = common(common(k, s.1), common(r.1, x.1));
    law_add_exact(x, y, m);
    law_add_exact(s, ny, m);
    let p = pow10((y.1 - m) as nat) as int;
    let b = y.0;
    assert((-b) * p == -(b * p)) by (nonlinear_arith);
    assert(scaled(r.0, r.1, m) == scaled(x.0, x.1, m));
    lemma_order_scales(r, x, m);
    law_equal_means_same(r, x);
}

/// Sums are canonical.
pub proof fn lemma_sum_canonical(x: (int, int), y: (int, int))
    requires
        is_canonical(x),
        is_canonical(y),
    ensures
        is_canonical(sum(x, y)),
{
    let k = common(x.1, y.1);
    lemma_normal_fixed(scaled(x.0, x.1, k) + scaled(y.0, y.1, k), k);
}

/// The bytes of ASCII text.
pub open spec fn ascii(s: Seq<char>) -> Seq<u8> {
    Seq::new(s.len(), |i: int| s[i] as u8)
}

proof fn lemma_ascii_concat(a: Seq<char>, b: Seq<char>)
    ensures
        ascii(a + b) == ascii(a) + ascii(b),
{
    assert(ascii(a + b) =~= ascii(a) + ascii(b));
}

proof fn lemma_ascii_digits(s: Seq<char>)
    requires
        digit_text(s),
    ensures
        all_digits(ascii(s)),
        digits_value(ascii(s)) == text_value(s),
    decreases s.len(),
{
    assert forall|i: int| 0 <= i < s.len() implies is_digit(#[trigger] ascii(s)[i]) by {
        assert(48 <= s[i] as int <= 57);
    }
    if s.len() > 0 {
        assert(digit_text(s.drop_last())) by {
            assert forall|i: int| 0 <= i < s.len() - 1 implies 48 <= (
            #[trigger] s.drop_last()[i]) as int <= 57 by {
                assert(s.drop_last()[i] == s[i]);
            }
        }
        lemma_ascii_digits(s.drop_last());
        assert(ascii(s).drop_last() =~= ascii(s.drop_last()));
        assert(48 <= s[s.len() - 1] as int <= 57);
    }
}

/// A positive number's digits do not begin with zero.
proof fn lemma_no_leading_zero(n: nat)
    requires
        n > 0,
    ensures
        decimal_digits(n)[0] as int != 48,
        decimal_digits(n).len() > 0,
    decreases n,
{
    if n >= 10 {
        lemma_no_leading_zero(n / 10);
        assert(decimal_digits(n)[0] == decimal_digits(n / 10)[0]);
    }
}

/// Zero digits at the end of the coefficient move into the exponent.
proof fn lemma_normal_shift(c: int, k: nat, e: int)
    requires
        c != 0,
        e + k <= i64::MAX,
    ensures
        normal(c * pow10(k), e) == normal(c, e + k),
    decreases k,
{
    if k == 0 {
        assert(c * 1 == c);
    } else {
        let p = pow10((k - 1) as nat) as int;
        lemma_pow10_pos((k - 1) as nat);
        let d = c * p;
        assert(c * (10 * p) == 10 * d) by (nonlinear_arith)
            requires
                d == c * p,
        ;
        assert(d != 0) by (nonlinear_arith)
            requires
                d == c * p,
                c != 0,
                p >= 1,
        ;
        assert((10 * d) % 10 == 0);
        assert((10 * d) / 10 == d);
        lemma_normal_shift(c, (k - 1) as nat, e + 1);
    }
}

/// Whether the canonical text parses: the exponent of the scientific form has at most 18 digits.
pub open spec fn reparses(c: int, e: int) -> bool {
    let l = decimal_digits(abs(c)).len() as int;
    c == 0 || -l - PLAIN_PAD <= e <= PLAIN_PAD || -1_000_000_000_000_000_000 < e
        < 1_000_000_000_000_000_000
}

/// The literal that the canonical text is.
pub open spec fn canonical_literal(c: int, e: int) -> Literal {
    let d = decimal_digits(abs(c));
    let l = d.len() as int;
    if c == 0 {
        Literal { neg: false, int: ascii(seq!['0']), frac: seq![], exp: None }
    } else if e == 0 {
        Literal { neg: c < 0, int: ascii(d), frac: seq![], exp: None }
    } else if 0 < e <= PLAIN_PAD {
        Literal { neg: c < 0, int: ascii(d + zeros(e as nat)), frac: seq![], exp: None }
    } else if e < 0 && -e < l {
        Literal { neg: c < 0, int: ascii(d.take(l + e)), frac: ascii(d.skip(l + e)), exp: None }
    } else if e < 0 && -e <= l + PLAIN_PAD {
        Literal {
            neg: c < 0,
            int: ascii(seq!['0']),
            frac: ascii(zeros((-e - l) as nat) + d),
            exp: None,
        }
    } else {
        Literal {
            neg: c < 0,
            int: ascii(d),
            frac: seq![],
            exp: Some(
                Exponent {
                    marker: 101,
                    sign: if e < 0 {
                        Some(45u8)
                    } else {
                        None
                    },
                    digits: ascii(decimal_digits(abs(e))),
                },
            ),
        }
    }
}

proof fn lemma_sub_digit_text(d: Seq<char>, i: int, j: int)
    requires
        digit_text(d),
        0 <= i <= j <= d.len(),
    ensures
        digit_text(d.subrange(i, j)),
{
    assert forall|k: int| 0 <= k < j - i implies 48 <= (#[trigger] d.subrange(i, j)[k]) as int <= 57 by {
        assert(d.subrange(i, j)[k] == d[i + k]);
    }
}

proof fn lemma_digit_text_concat(a: Seq<char>, b: Seq<char>)
    requires
        digit_text(a),
        digit_text(b),
    ensures
        digit_text(a + b),
{
    assert forall|k: int| 0 <= k < (a + b).len() implies 48 <= (#[trigger] (a + b)[k]) as int <= 57 by {
        if k < a.len() {
            assert((a + b)[k] == a[k]);
        } else {
            assert((a + b)[k] == b[k - a.len()]);
        }
    }
}

/// What the canonical text says: the parts denote the number that was rendered.
proof fn lemma_canonical_literal_value(c: int, e: int)
    requires
        is_canonical((c, e)),
    ensures
        canonical_literal(c, e).valid(),
        normal(canonical_literal(c, e).coefficient(), canonical_literal(c, e).exponent()) == (c, e),
        canonical_literal(c, e).exponent() >= i64::MIN,
{
    let m = abs(c);
    let d = decimal_digits(m);
    let l = d.len() as int;
    let lit = canonical_literal(c, e);
    lemma_digits_text(m);
    lemma_digits_len(m);
    lemma_normal_iff(c, e);
    let zero: Seq<char> = seq!['0'];
    assert(digit_text(zero));
    assert(lit.int + Seq::<u8>::empty() =~= lit.int);
    if c == 0 {
        lemma_ascii_digits(zero);
        assert(zero.drop_last().len() == 0);
        assert(text_value(zero.drop_last()) == 0);
    } else {
        lemma_no_leading_zero(m);
        lemma_ascii_digits(d);
        if e == 0 {
        } else if 0 < e <= PLAIN_PAD {
            super::lemma_padded_value(m, e as nat);
            lemma_ascii_digits(d + zeros(e as nat));
            lemma_normal_shift(c, e as nat, 0);
            assert(ascii(d + zeros(e as nat))[0] == d[0] as u8);
            let p = pow10(e as nat) as int;
            assert((-c) * p == -(c * p)) by (nonlinear_arith);
        } else if e < 0 && -e < l {
            lemma_sub_digit_text(d, 0, l + e);
            lemma_sub_digit_text(d, l + e, l);
            assert(d.subrange(0, l + e) =~= d.take(l + e));
            assert(d.subrange(l + e, l) =~= d.skip(l + e));
            lemma_ascii_digits(d.take(l + e));
            lemma_ascii_digits(d.skip(l + e));
            assert(ascii(d.take(l + e)) + ascii(d.skip(l + e)) =~= ascii(d));
            assert(ascii(d.take(l + e))[0] == d[0] as u8);
        } else if e < 0 && -e <= l + PLAIN_PAD {
            let z = zeros((-e - l) as nat);
            super::lemma_zeros_value((-e - l) as nat);
            lemma_digit_text_concat(z, d);
            lemma_digit_text_concat(zero, z + d);
            lemma_ascii_digits(zero);
            lemma_ascii_digits(z + d);
            lemma_ascii_digits(zero + (z + d));
            assert(ascii(zero) + ascii(z + d) =~= ascii(zero + (z + d)));
            super::lemma_zeros_value((-e - l + 1) as nat);
            assert(zero + (z + d) =~= zeros((-e - l + 1) as nat) + d);
            super::lemma_text_concat(zeros((-e - l + 1) as nat), d);
            assert(0 * pow10(d.len()) == 0) by (nonlinear_arith);
        } else {
            lemma_digits_text(abs(e));
            lemma_digits_len(abs(e));
            lemma_ascii_digits(decimal_digits(abs(e)));
        }
    }
}

/// The canonical text is the literal's text.
proof fn lemma_canonical_literal_text(c: int, e: int)
    ensures
        canonical_literal(c, e).text() == ascii(decimal_text(c, e)),
{
    let m = abs(c);
    let d = decimal_digits(m);
    let l = d.len() as int;
    let lit = canonical_literal(c, e);
    let sign: Seq<char> = if c < 0 {
        seq!['-']
    } else {
        seq![]
    };
    lemma_digits_len(m);
    if c == 0 {
        assert(lit.text() =~= ascii(decimal_text(c, e)));
    } else {
        let body = magnitude_text(m, e);
        assert(decimal_text(c, e) =~= sign + body);
        lemma_ascii_concat(sign, body);
        assert(lit.sign_text() =~= ascii(sign));
        if e == 0 || 0 < e <= PLAIN_PAD {
            assert(lit.text() =~= ascii(sign) + ascii(body));
        } else if e < 0 && -e < l {
            assert(lit.int + lit.frac_text() =~= ascii(body));
            assert(lit.text() =~= ascii(sign) + ascii(body));
        } else if e < 0 && -e <= l + PLAIN_PAD {
            assert(lit.int + lit.frac_text() =~= ascii(body));
            assert(lit.text() =~= ascii(sign) + ascii(body));
        } else {
            assert(lit.int + lit.exp_text() =~= ascii(body));
            assert(lit.text() =~= ascii(sign) + ascii(body));
        }
    }
}

/// Rendering then parsing gives the number back: the canonical text is a valid literal that denotes
/// it, and the only reading of that text.
pub proof fn law_render_parses(c: int, e: int)
    requires
        is_canonical((c, e)),
        reparses(c, e),
    ensures
        canonical_literal(c, e).valid(),
        canonical_literal(c, e).text() == ascii(decimal_text(c, e)),
        canonical_literal(c, e).in_range(),
        normal(canonical_literal(c, e).coefficient(), canonical_literal(c, e).exponent()) == (c, e),
{
    lemma_canonical_literal_value(c, e);
    lemma_canonical_literal_text(c, e);
    let lit = canonical_literal(c, e);
    if lit.exp is Some {
        lemma_digits_len(abs(e));
        lemma_pow10_values();
        let k = decimal_digits(abs(e)).len();
        if k > 18 {
            lemma_pow10_mono(18, (k - 1) as nat);
        }
    }
}

} // verus!
