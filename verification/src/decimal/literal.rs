//! The grammar of decimal literals: `-? (0 | [1-9][0-9]*) (. [0-9]+)? ([eE] [+-]? [0-9]+)?`.
use crate::bigint::places::lemma_place_below;
use crate::bigint::signed;
use vstd::arithmetic::power::{lemma_pow0, pow};
use vstd::prelude::*;

verus! {

/// Whether a byte is an ASCII digit.
pub open spec fn is_digit(b: u8) -> bool {
    48 <= b <= 57
}

pub open spec fn all_digits(s: Seq<u8>) -> bool {
    forall|i: int| 0 <= i < s.len() ==> is_digit(#[trigger] s[i])
}

/// The number that a string of ASCII digits denotes.
pub open spec fn digits_value(s: Seq<u8>) -> nat
    decreases s.len(),
{
    if s.len() == 0 {
        0
    } else {
        (digits_value(s.drop_last()) * 10 + (s.last() - 48)) as nat
    }
}

/// The exponent part of a literal.
pub struct Exponent {
    /// `e` or `E`.
    pub marker: u8,
    /// `+` or `-`, where one is written.
    pub sign: Option<u8>,
    pub digits: Seq<u8>,
}

impl Exponent {
    pub open spec fn valid(self) -> bool {
        &&& self.marker == 101 || self.marker == 69
        &&& self.sign matches Some(c) ==> c == 43 || c == 45
        &&& self.digits.len() > 0
        &&& all_digits(self.digits)
    }

    pub open spec fn text(self) -> Seq<u8> {
        match self.sign {
            Some(c) => seq![self.marker, c] + self.digits,
            None => seq![self.marker] + self.digits,
        }
    }

    pub open spec fn value(self) -> int {
        signed(self.sign == Some(45u8), digits_value(self.digits))
    }
}

/// The parts of a decimal literal. An empty `frac` means that there is no point.
pub struct Literal {
    pub neg: bool,
    pub int: Seq<u8>,
    pub frac: Seq<u8>,
    pub exp: Option<Exponent>,
}

impl Literal {
    /// Whether the parts follow the grammar.
    pub open spec fn valid(self) -> bool {
        &&& self.int.len() > 0
        &&& all_digits(self.int)
        &&& self.int.len() > 1 ==> self.int[0] != 48
        &&& all_digits(self.frac)
        &&& self.exp matches Some(e) ==> e.valid()
    }

    pub open spec fn sign_text(self) -> Seq<u8> {
        if self.neg {
            seq![45u8]
        } else {
            seq![]
        }
    }

    pub open spec fn frac_text(self) -> Seq<u8> {
        if self.frac.len() > 0 {
            seq![46u8] + self.frac
        } else {
            seq![]
        }
    }

    pub open spec fn exp_text(self) -> Seq<u8> {
        match self.exp {
            Some(e) => e.text(),
            None => seq![],
        }
    }

    /// The bytes of the literal.
    pub open spec fn text(self) -> Seq<u8> {
        self.sign_text() + self.int + self.frac_text() + self.exp_text()
    }

    /// All the digits, as one signed integer.
    pub open spec fn coefficient(self) -> int {
        signed(self.neg, digits_value(self.int + self.frac))
    }

    /// The exponent that scales [`Literal::coefficient`].
    pub open spec fn exponent(self) -> int {
        (match self.exp {
            Some(e) => e.value(),
            None => 0,
        }) - self.frac.len()
    }

    /// Whether the exponent can be held: at most 18 exponent digits, and within `i64` after the
    /// fraction digits are taken off.
    pub open spec fn in_range(self) -> bool {
        &&& self.exp matches Some(e) ==> e.digits.len() <= 18
        &&& self.exponent() >= i64::MIN
    }
}

/// `[p, q)` is a maximal run of digits of `s`.
pub open spec fn digit_run(s: Seq<u8>, p: int, q: int) -> bool {
    &&& 0 <= p <= q <= s.len()
    &&& forall|i: int| p <= i < q ==> is_digit(#[trigger] s[i])
    &&& q < s.len() ==> !is_digit(s[q])
}

/// A maximal run is determined by where it starts.
pub proof fn lemma_run_unique(s: Seq<u8>, p: int, q: int, r: int)
    requires
        digit_run(s, p, q),
        digit_run(s, p, r),
    ensures
        q == r,
{
    if q < r {
        assert(is_digit(s[q]));
    }
    if r < q {
        assert(is_digit(s[r]));
    }
}

/// Where the parts of a valid literal lie in its text.
pub open spec fn after_sign(l: Literal) -> int {
    if l.neg {
        1
    } else {
        0
    }
}

pub open spec fn after_int(l: Literal) -> int {
    after_sign(l) + l.int.len()
}

pub open spec fn after_frac(l: Literal) -> int {
    after_int(l) + if l.frac.len() > 0 {
        1 + l.frac.len() as int
    } else {
        0
    }
}

/// The sign and integer part of a valid literal can be read off its text.
pub proof fn lemma_literal_int(l: Literal)
    requires
        l.valid(),
    ensures
        l.text().len() == after_frac(l) + l.exp_text().len(),
        l.text().len() > 0,
        l.neg <==> l.text()[0] == 45,
        digit_run(l.text(), after_sign(l), after_int(l)),
        l.text().subrange(after_sign(l), after_int(l)) == l.int,
        l.text()[after_sign(l)] == l.int[0],
        l.frac.len() > 0 <==> after_int(l) < l.text().len() && l.text()[after_int(l)] == 46,
{
    let t = l.text();
    let p = after_sign(l);
    let q = after_int(l);
    assert(t.subrange(p, q) =~= l.int);
    assert forall|i: int| p <= i < q implies is_digit(#[trigger] t[i]) by {
        assert(t[i] == l.int[i - p]);
    }
    assert(t[p] == l.int[0]);
    assert(is_digit(l.int[0]));
    if l.frac.len() > 0 {
        assert(t[q] == 46);
    } else if l.exp is Some {
        assert(t[q] == l.exp_text()[0]);
    }
}

/// The fraction of a valid literal can be read off its text.
pub proof fn lemma_literal_frac(l: Literal)
    requires
        l.valid(),
    ensures
        l.frac.len() > 0 ==> {
            &&& digit_run(l.text(), after_int(l) + 1, after_frac(l))
            &&& l.text().subrange(after_int(l) + 1, after_frac(l)) == l.frac
        },
        l.exp is Some <==> after_frac(l) < l.text().len(),
        l.exp matches Some(e) ==> l.text().skip(after_frac(l)) == e.text(),
{
    let t = l.text();
    let p = after_int(l) + 1;
    let q = after_frac(l);
    if l.frac.len() > 0 {
        assert(t.subrange(p, q) =~= l.frac);
        assert forall|i: int| p <= i < q implies is_digit(#[trigger] t[i]) by {
            assert(t[i] == l.frac[i - p]);
        }
    }
    if l.exp is Some {
        assert(t.skip(q) =~= l.exp_text());
    }
}

/// Where the digits of an exponent begin in its text.
pub open spec fn exponent_digits_at(e: Exponent) -> int {
    if e.sign is Some {
        2
    } else {
        1
    }
}

/// The parts of a valid exponent can be read off its text.
pub proof fn lemma_exponent_shape(e: Exponent)
    requires
        e.valid(),
    ensures
        e.text().len() > exponent_digits_at(e),
        e.text()[0] == e.marker,
        e.sign is Some <==> e.text()[1] == 43 || e.text()[1] == 45,
        e.sign matches Some(c) ==> e.text()[1] == c,
        digit_run(e.text(), exponent_digits_at(e), e.text().len() as int),
        e.text().subrange(exponent_digits_at(e), e.text().len() as int) == e.digits,
{
    let t = e.text();
    let p = exponent_digits_at(e);
    assert(t.subrange(p, t.len() as int) =~= e.digits);
    assert forall|i: int| p <= i < t.len() implies is_digit(#[trigger] t[i]) by {
        assert(t[i] == e.digits[i - p]);
    }
    if e.sign is None {
        assert(t[1] == e.digits[0]);
        assert(is_digit(e.digits[0]));
    }
}

/// A text has at most one reading as an exponent.
pub proof fn lemma_exponent_unique(e: Exponent, f: Exponent)
    requires
        e.valid(),
        f.valid(),
        e.text() == f.text(),
    ensures
        e == f,
{
    lemma_exponent_shape(e);
    lemma_exponent_shape(f);
    assert(e.sign == f.sign);
    assert(e.digits == f.digits);
}

/// The grammar is unambiguous: a text has at most one reading.
pub proof fn law_unambiguous(l: Literal, m: Literal)
    requires
        l.valid(),
        m.valid(),
        l.text() == m.text(),
    ensures
        l == m,
{
    let t = l.text();
    lemma_literal_int(l);
    lemma_literal_int(m);
    assert(l.neg == m.neg);
    lemma_run_unique(t, after_sign(l), after_int(l), after_int(m));
    assert(l.int == m.int);
    lemma_literal_frac(l);
    lemma_literal_frac(m);
    if l.frac.len() > 0 {
        lemma_run_unique(t, after_int(l) + 1, after_frac(l), after_frac(m));
    }
    assert(l.frac =~= m.frac);
    assert(after_frac(l) == after_frac(m));
    if l.exp is Some {
        lemma_exponent_unique(l.exp->0, m.exp->0);
        assert(l.exp == m.exp);
    } else {
        assert(m.exp is None);
        assert(l.exp == m.exp);
    }
}

/// Digits, place by place: the byte at each position is the ASCII digit of that power of ten in the
/// number that they spell, and the number has no digit above them. No digits spell zero.
pub proof fn law_digits_places(s: Seq<u8>, i: int)
    requires
        all_digits(s),
        0 <= i < s.len(),
    ensures
        (digits_value(s) as int / pow(10, (s.len() - 1 - i) as nat)) % 10 == s[i] - 48,
        digits_value(s) < pow(10, s.len()),
        digits_value(Seq::<u8>::empty()) == 0,
    decreases s.len(),
{
    let r = s.drop_last();
    let v = digits_value(s) as int;
    let k = (s.len() - 1 - i) as nat;
    assert forall|j: int| 0 <= j < r.len() implies is_digit(#[trigger] r[j]) by {
        assert(r[j] == s[j]);
    }
    assert(is_digit(s[s.len() - 1]));
    assert(v == 10 * digits_value(r) + (s.last() - 48));
    assert(v / 10 == digits_value(r));
    lemma_place_below(v, 10, s.len());
    if r.len() > 0 {
        law_digits_places(r, if i < r.len() {
            i
        } else {
            0
        });
    } else {
        lemma_pow0(10);
    }
    if k == 0 {
        lemma_pow0(10);
    } else {
        lemma_place_below(v, 10, k);
    }
}

/// The grammar, byte by byte: what a literal's parts must be.
pub proof fn law_grammar(l: Literal)
    ensures
        l.valid() <==> {
            &&& l.int.len() > 0
            &&& forall|i: int| 0 <= i < l.int.len() ==> 48 <= #[trigger] l.int[i] <= 57
            &&& l.int[0] == 48 ==> l.int.len() == 1
            &&& forall|i: int| 0 <= i < l.frac.len() ==> 48 <= #[trigger] l.frac[i] <= 57
            &&& l.exp matches Some(e) ==> {
                &&& e.marker == 101 || e.marker == 69
                &&& e.sign == None::<u8> || e.sign == Some(43u8) || e.sign == Some(45u8)
                &&& e.digits.len() > 0
                &&& forall|i: int| 0 <= i < e.digits.len() ==> 48 <= #[trigger] e.digits[i] <= 57
            }
        },
{
    if l.valid() {
        assert forall|i: int| 0 <= i < l.int.len() implies 48 <= #[trigger] l.int[i] <= 57 by {
            assert(is_digit(l.int[i]));
        }
        assert forall|i: int| 0 <= i < l.frac.len() implies 48 <= #[trigger] l.frac[i] <= 57 by {
            assert(is_digit(l.frac[i]));
        }
        if l.exp is Some {
            let e = l.exp->Some_0;
            assert forall|i: int| 0 <= i < e.digits.len() implies 48 <= #[trigger] e.digits[i]
                <= 57 by {
                assert(is_digit(e.digits[i]));
            }
        }
    }
}

/// The text of a literal is its parts in a row: a minus where it is negative, the integer digits, a
/// point and the fraction digits where there are any, and the exponent where there is one.
pub proof fn law_literal_text(l: Literal)
    ensures
        l.text() == (if l.neg {
            seq![45u8]
        } else {
            Seq::<u8>::empty()
        }) + l.int + (if l.frac.len() > 0 {
            seq![46u8] + l.frac
        } else {
            Seq::<u8>::empty()
        }) + (match l.exp {
            Some(e) => seq![e.marker] + (match e.sign {
                Some(c) => seq![c],
                None => Seq::<u8>::empty(),
            }) + e.digits,
            None => Seq::<u8>::empty(),
        }),
{
    if l.exp is Some {
        let e = l.exp->Some_0;
        if e.sign is Some {
            assert(e.text() =~= seq![e.marker] + seq![e.sign->Some_0] + e.digits);
        } else {
            assert(e.text() =~= seq![e.marker] + Seq::<u8>::empty() + e.digits);
        }
    }
}

/// What a literal denotes: the integer digits followed by the fraction digits, as one number with the
/// literal's sign, times ten to the written exponent less the number of fraction digits. The written
/// exponent is the number that its digits spell, negative exactly where its sign is a minus.
pub proof fn law_literal_value(l: Literal)
    ensures
        l.neg ==> l.coefficient() + digits_value(l.int + l.frac) == 0,
        !l.neg ==> l.coefficient() == digits_value(l.int + l.frac),
        l.exp is None ==> l.exponent() + l.frac.len() == 0,
        l.exp matches Some(e) ==> (e.sign == Some(45u8) ==> l.exponent() + l.frac.len()
            + digits_value(e.digits) == 0),
        l.exp matches Some(e) ==> (e.sign != Some(45u8) ==> l.exponent() + l.frac.len()
            == digits_value(e.digits)),
{
}

/// An exponent scales: a literal with one denotes what the literal without it denotes, times ten to
/// that exponent, whatever the fraction is.
pub proof fn law_exponent_scales(neg: bool, whole: Seq<u8>, frac: Seq<u8>, e: Exponent)
    ensures
        ({
            let plain = Literal { neg, int: whole, frac, exp: None };
            let l = Literal { neg, int: whole, frac, exp: Some(e) };
            &&& l.coefficient() == plain.coefficient()
            &&& l.exponent() - plain.exponent() == if e.sign == Some(45u8) {
                -(digits_value(e.digits) as int)
            } else {
                digits_value(e.digits) as int
            }
        }),
{
}

/// A plus in front of an exponent, and which of the two markers is written, make no difference; a
/// minus turns the exponent around.
pub proof fn law_plus_and_marker(neg: bool, whole: Seq<u8>, frac: Seq<u8>, digits: Seq<u8>, m: u8, n: u8)
    ensures
        ({
            let none = Literal { neg, int: whole, frac, exp: Some(Exponent { marker: m, sign: None, digits }) };
            let plus = Literal {
                neg,
                int: whole,
                frac,
                exp: Some(Exponent { marker: n, sign: Some(43u8), digits }),
            };
            let minus = Literal {
                neg,
                int: whole,
                frac,
                exp: Some(Exponent { marker: n, sign: Some(45u8), digits }),
            };
            &&& none.coefficient() == plus.coefficient() == minus.coefficient()
            &&& none.exponent() == plus.exponent()
            &&& plus.exponent() + minus.exponent() + 2 * frac.len() == 0
            &&& none.in_range() == plus.in_range()
        }),
{
}

/// A point only moves the exponent: the digits without it denote the same, times ten to the number of
/// fraction digits.
pub proof fn law_point_shifts(neg: bool, whole: Seq<u8>, frac: Seq<u8>, exp: Option<Exponent>)
    ensures
        ({
            let l = Literal { neg, int: whole, frac, exp };
            let joint = Literal { neg, int: whole + frac, frac: Seq::empty(), exp };
            &&& joint.coefficient() == l.coefficient()
            &&& joint.exponent() == l.exponent() + frac.len()
        }),
{
    assert(whole + frac + Seq::<u8>::empty() =~= whole + frac);
}

/// A minus in front turns the number around and changes nothing else.
pub proof fn law_minus_negates(whole: Seq<u8>, frac: Seq<u8>, exp: Option<Exponent>)
    ensures
        ({
            let l = Literal { neg: false, int: whole, frac, exp };
            let m = Literal { neg: true, int: whole, frac, exp };
            &&& l.coefficient() >= 0
            &&& l.coefficient() + m.coefficient() == 0
            &&& l.exponent() == m.exponent()
            &&& l.in_range() == m.in_range()
        }),
{
}

/// Which valid literals can be held: those with at most 18 exponent digits whose exponent, less the
/// number of fraction digits, is not below the least `i64`.
pub proof fn law_literal_range(l: Literal)
    ensures
        l.exp is None ==> (l.in_range() <==> -(l.frac.len() as int) >= i64::MIN),
        l.exp matches Some(e) ==> (e.digits.len() > 18 ==> !l.in_range()),
        l.exp matches Some(e) ==> (e.digits.len() <= 18 && e.sign == Some(45u8) ==> (l.in_range()
            <==> -(digits_value(e.digits) as int) - l.frac.len() >= i64::MIN)),
        l.exp matches Some(e) ==> (e.digits.len() <= 18 && e.sign != Some(45u8) ==> (l.in_range()
            <==> digits_value(e.digits) - l.frac.len() >= i64::MIN)),
{
}

} // verus!
