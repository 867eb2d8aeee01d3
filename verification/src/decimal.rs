//! Exact base-10 numbers `coeff * 10^exp` in canonical form: the coefficient has no trailing zero digit
//! (unless the exponent is already at its maximum), and zero is `0 * 10^0`.
use crate::bigint::addsub::{relation_of, Relation};
use crate::bigint::laws::law_unique_form;
use crate::bigint::{order_of, quotient, signed, signed_decimal, Big};
use crate::digits::{
    decimal_digits, lemma_digits_len, lemma_pow10_add, lemma_pow10_mono, lemma_pow10_pos,
    lemma_pow10_values, pow10,
};
use crate::text::{answered, wrote, SinkError, TextSink};
use std::cmp::Ordering;
use vstd::arithmetic::power::pow;
use vstd::math::abs;
use vstd::prelude::*;
use vstd::slice::slice_subrange;
use vstd::std_specs::cmp::{PartialEqSpecImpl, PartialOrdSpecImpl};
use vstd::string::{StrSliceExecFns, StringExecFns, StringSliceAdditionalSpecFns};

pub mod laws;
pub mod literal;
pub mod values;

use literal::{
    after_frac, after_int, after_sign, all_digits, digit_run, digits_value, is_digit,
    exponent_digits_at, lemma_exponent_shape, lemma_literal_frac, lemma_literal_int, lemma_run_unique,
    Exponent, Literal,
};

verus! {

/// The plain form is used up to this many padding zeros.
pub const PLAIN_PAD: i64 = 30;

/// The canonical form of `c * 10^e`: trailing zero digits move into the exponent, as far as it fits.
pub open spec fn normal(c: int, e: int) -> (int, int)
    decreases abs(c),
{
    if c == 0 {
        (0, 0)
    } else if e < i64::MAX && c % 10 == 0 {
        normal(c / 10, e + 1)
    } else {
        (c, e)
    }
}

/// `c * 10^e` scaled to the exponent `m <= e`.
pub open spec fn scaled(c: int, e: int, m: int) -> int {
    c * pow10((e - m) as nat)
}

/// The smaller of two exponents.
pub open spec fn common(e1: int, e2: int) -> int {
    if e1 <= e2 {
        e1
    } else {
        e2
    }
}

/// The canonical sum of two numbers.
pub open spec fn sum(x: (int, int), y: (int, int)) -> (int, int) {
    let m = common(x.1, y.1);
    if x.0 == 0 {
        y
    } else if y.0 == 0 {
        x
    } else {
        normal(scaled(x.0, x.1, m) + scaled(y.0, y.1, m), m)
    }
}

/// An exponent held to the range of `i64`.
pub open spec fn saturate(e: int) -> int {
    if e > i64::MAX {
        i64::MAX as int
    } else if e < i64::MIN {
        i64::MIN as int
    } else {
        e
    }
}

/// The canonical product of two numbers.
pub open spec fn product(x: (int, int), y: (int, int)) -> (int, int) {
    normal(x.0 * y.0, saturate(x.1 + y.1))
}

/// How two numbers compare, at a common exponent.
pub open spec fn decimal_order(x: (int, int), y: (int, int)) -> Ordering {
    order_of(scaled(x.0, x.1, common(x.1, y.1)), scaled(y.0, y.1, common(x.1, y.1)))
}

pub open spec fn zeros(n: nat) -> Seq<char> {
    Seq::new(n, |i: int| '0')
}

/// The text of a nonzero magnitude `m * 10^e`.
pub open spec fn magnitude_text(m: nat, e: int) -> Seq<char> {
    let d = decimal_digits(m);
    let l = d.len() as int;
    if e == 0 {
        d
    } else if 0 < e <= PLAIN_PAD {
        d + zeros(e as nat)
    } else if e < 0 && -e < l {
        d.take(l + e) + seq!['.'] + d.skip(l + e)
    } else if e < 0 && -e <= l + PLAIN_PAD {
        seq!['0', '.'] + zeros((-e - l) as nat) + d
    } else {
        d + seq!['e'] + signed_decimal(e)
    }
}

/// The canonical text of a number.
pub open spec fn decimal_text(c: int, e: int) -> Seq<char> {
    if c == 0 {
        seq!['0']
    } else if c < 0 {
        seq!['-'] + magnitude_text(abs(c), e)
    } else {
        magnitude_text(abs(c), e)
    }
}

/// An exact decimal number in canonical form.
#[derive(Debug)]
pub struct Decimal {
    coeff: Big,
    exp: i64,
}

/// The input was not a well-formed decimal literal.
#[derive(Clone, Copy, PartialEq, Eq, Structural, Debug)]
pub struct ParseDecimalError;

impl ParseDecimalError {
    /// What the error says.
    pub fn to_string(&self) -> (s: String)
        ensures
            s@ == "invalid decimal (not a well-formed JSON number)"@,
    {
        String::from_str("invalid decimal (not a well-formed JSON number)")
    }
}

impl View for Decimal {
    /// Coefficient and exponent of the canonical form.
    type V = (int, int);

    closed spec fn view(&self) -> (int, int) {
        normal(self.coeff@, self.exp as int)
    }
}

pub proof fn lemma_normal_fixed(c: int, e: int)
    requires
        e <= i64::MAX,
    ensures
        normal(normal(c, e).0, normal(c, e).1) == normal(c, e),
        c != 0 ==> e <= normal(c, e).1 <= i64::MAX,
        c != 0 ==> normal(c, e).0 != 0 && (normal(c, e).0 < 0 <==> c < 0),
    decreases abs(c),
{
    if c != 0 && e < i64::MAX && c % 10 == 0 {
        lemma_normal_fixed(c / 10, e + 1);
    }
}

/// The numbers that are in canonical form already.
pub proof fn lemma_normal_iff(c: int, e: int)
    requires
        e <= i64::MAX,
    ensures
        normal(c, e) == (c, e) <==> if c == 0 {
            e == 0
        } else {
            e == i64::MAX || c % 10 != 0
        },
{
    if c != 0 && e < i64::MAX && c % 10 == 0 {
        lemma_normal_fixed(c / 10, e + 1);
    }
}

/// Canonicalizing keeps the value: at every exponent up to the given one both forms scale alike.
pub proof fn law_normal_value(c: int, e: int, m: int)
    requires
        m <= e <= i64::MAX,
    ensures
        c != 0 ==> scaled(normal(c, e).0, normal(c, e).1, m) == scaled(c, e, m),
        c == 0 ==> scaled(c, e, m) == 0,
    decreases abs(c),
{
    if c == 0 {
        assert(0 * pow10((e - m) as nat) == 0) by (nonlinear_arith);
    } else if e < i64::MAX && c % 10 == 0 {
        law_normal_value(c / 10, e + 1, m);
        let p = pow10((e - m) as nat) as int;
        let q = c / 10;
        assert(pow10((e + 1 - m) as nat) == 10 * p);
        assert(q * (10 * p) == (q * 10) * p) by (nonlinear_arith);
    }
}

impl Decimal {
    /// The canonical form.
    #[verifier::type_invariant]
    pub closed spec fn inv(self) -> bool {
        &&& self.coeff.wf()
        &&& normal(self.coeff@, self.exp as int) == (self.coeff@, self.exp as int)
    }

    /// Every number is in canonical form, with an exponent that fits.
    pub proof fn lemma_canonical(&self)
        ensures
            laws::is_canonical(self@),
    {
        lemma_normal_fixed(self.coeff@, self.exp as int);
    }

    /// The canonical zero.
    pub fn zero() -> (r: Decimal)
        ensures
            r@ == (0int, 0int),
    {
        Decimal { coeff: Big::zero(), exp: 0 }
    }

    /// The canonical one.
    pub fn one() -> (r: Decimal)
        ensures
            r@ == (1int, 0int),
    {
        Decimal { coeff: Big::from_i64(1), exp: 0 }
    }

    /// The value of a signed word.
    pub fn from_i64(v: i64) -> (r: Decimal)
        ensures
            r@ == normal(v as int, 0),
    {
        Decimal::new(Big::from_i64(v), 0)
    }

    /// The value of an integer.
    pub fn from_bigint(n: Big) -> (r: Decimal)
        requires
            n.wf(),
        ensures
            r@ == normal(n@, 0),
    {
        Decimal::new(n, 0)
    }

    /// `coeff * 10^exp`, canonicalized.
    pub fn new(coeff: Big, exp: i64) -> (r: Decimal)
        requires
            coeff.wf(),
        ensures
            r@ == normal(coeff@, exp as int),
    {
        let (c, e): (Big, i64) = normalize(coeff, exp);
        proof {
            lemma_normal_fixed(coeff@, exp as int);
        }
        Decimal { coeff: c, exp: e }
    }

    /// The coefficient.
    pub fn coefficient(&self) -> (r: &Big)
        ensures
            r.wf(),
            r@ == self@.0,
    {
        proof {
            use_type_invariant(self);
        }
        &self.coeff
    }

    /// The exponent.
    pub fn exponent(&self) -> (r: i64)
        ensures
            r == self@.1,
    {
        proof {
            use_type_invariant(self);
        }
        self.exp
    }

    /// Whether the value is zero.
    pub fn is_zero(&self) -> (r: bool)
        ensures
            r == (self@.0 == 0),
    {
        proof {
            use_type_invariant(self);
        }
        self.coeff.is_zero()
    }

    /// Whether the value is strictly negative.
    pub fn is_negative(&self) -> (r: bool)
        ensures
            r == (self@.0 < 0),
    {
        proof {
            use_type_invariant(self);
        }
        self.coeff.is_negative()
    }

    /// Whether the value is an integer.
    pub fn is_integer(&self) -> (r: bool)
        ensures
            r == (self@.0 == 0 || self@.1 >= 0),
    {
        proof {
            use_type_invariant(self);
        }
        self.is_zero() || self.exp >= 0
    }

    /// `-self`.
    pub fn neg(&self) -> (r: Decimal)
        ensures
            r@ == (-self@.0, self@.1),
    {
        proof {
            use_type_invariant(self);
            lemma_normal_iff(self.coeff@, self.exp as int);
            lemma_normal_iff(-self.coeff@, self.exp as int);
        }
        Decimal { coeff: self.coeff.neg(), exp: self.exp }
    }

    /// The absolute value.
    pub fn abs(&self) -> (r: Decimal)
        ensures
            r@ == (abs(self@.0) as int, self@.1),
    {
        proof {
            use_type_invariant(self);
            lemma_normal_iff(self.coeff@, self.exp as int);
            lemma_normal_iff(-self.coeff@, self.exp as int);
        }
        Decimal { coeff: self.coeff.abs(), exp: self.exp }
    }

    /// The exact sum.
    pub fn add(&self, other: &Decimal) -> (r: Decimal)
        ensures
            r@ == sum(self@, other@),
    {
        proof {
            use_type_invariant(self);
            use_type_invariant(other);
        }
        if self.coeff.is_zero() {
            return other.clone();
        }
        if other.coeff.is_zero() {
            return self.clone();
        }
        let e: i64 = if self.exp <= other.exp {
            self.exp
        } else {
            other.exp
        };
        let a: Big = scale_pow10(&self.coeff, (self.exp as i128 - e as i128) as u64);
        let b: Big = scale_pow10(&other.coeff, (other.exp as i128 - e as i128) as u64);
        Decimal::new(a.add(&b), e)
    }

    /// The exact difference.
    pub fn sub(&self, other: &Decimal) -> (r: Decimal)
        ensures
            r@ == sum(self@, (-other@.0, other@.1)),
    {
        self.add(&other.neg())
    }

    /// The exact product; the exponent saturates at the ends of its range.
    pub fn mul(&self, other: &Decimal) -> (r: Decimal)
        ensures
            r@ == product(self@, other@),
    {
        proof {
            use_type_invariant(self);
            use_type_invariant(other);
            let x = self.coeff@;
            let y = other.coeff@;
            assert(0 * y == 0) by (nonlinear_arith);
            assert(x * 0 == 0) by (nonlinear_arith);
        }
        if self.coeff.is_zero() || other.coeff.is_zero() {
            return Decimal::zero();
        }
        let wide: i128 = self.exp as i128 + other.exp as i128;
        let exp: i64 = if wide > i64::MAX as i128 {
            i64::MAX
        } else if wide < i64::MIN as i128 {
            i64::MIN
        } else {
            wide as i64
        };
        Decimal::new(self.coeff.mul(&other.coeff), exp)
    }

    /// Builds a number from the parts of a literal: `(int ++ frac) * 10^(exp - frac.len())`, negated
    /// when `neg`. `None` when a byte is not a digit or the exponent leaves the range of `i64`.
    pub fn from_parts(neg: bool, int_digits: &[u8], frac_digits: &[u8], exp: i64) -> (r: Option<
        Decimal,
    >)
        ensures
            r is Some <==> all_digits(int_digits@) && all_digits(frac_digits@) && exp
                - frac_digits@.len() >= i64::MIN,
            r matches Some(d) ==> d@ == normal(
                signed(neg, digits_value(int_digits@ + frac_digits@)),
                exp - frac_digits@.len(),
            ),
    {
        if !check_digits(int_digits) || !check_digits(frac_digits) {
            return None;
        }
        let wide: i128 = exp as i128 - frac_digits.len() as i128;
        if wide < i64::MIN as i128 {
            return None;
        }
        let mag: Big = big_from_ascii_digits(int_digits, frac_digits);
        let coeff: Big = if neg {
            mag.neg()
        } else {
            mag
        };
        Some(Decimal::new(coeff, wide as i64))
    }

    /// Builds `digits * 10^exp`, negated when `neg`. `None` when a byte is not a digit.
    pub fn from_components(neg: bool, digits: &[u8], exp: i64) -> (r: Option<Decimal>)
        ensures
            r is Some <==> all_digits(digits@),
            r matches Some(d) ==> d@ == normal(signed(neg, digits_value(digits@)), exp as int),
    {
        let empty: [u8; 0] = [];
        proof {
            assert(digits@ + empty@ =~= digits@);
        }
        Decimal::from_parts(neg, digits, empty.as_slice(), exp)
    }

    /// Parse a decimal literal. `None` when the bytes are not one, when the exponent has more than 18
    /// digits, or when the fraction moves the exponent out of the range of `i64`.
    pub fn from_ascii(bytes: &[u8]) -> (r: Option<Decimal>)
        ensures
            r matches Some(d) ==> exists|l: Literal|
                {
                    &&& #[trigger] l.valid()
                    &&& l.text() == bytes@
                    &&& l.in_range()
                    &&& d@ == normal(l.coefficient(), l.exponent())
                },
            forall|l: Literal|
                #[trigger] l.valid() && l.text() == bytes@ ==> (r is Some <==> l.in_range()),
            r matches Some(d) ==> forall|l: Literal|
                #[trigger] l.valid() && l.text() == bytes@ ==> d@ == normal(
                    l.coefficient(),
                    l.exponent(),
                ),
            r is None ==> forall|l: Literal|
                #[trigger] l.valid() && l.text() == bytes@ ==> !l.in_range(),
    {
        let n: usize = bytes.len();
        let ghost s = bytes@;
        let head: Option<Head> = scan_head(bytes);
        if head.is_none() {
            return None;
        }
        let Head { neg, start, int_end, frac_start, frac_end } = head.unwrap();
        let mut exp_val: i64 = 0;
        let ghost mut exp_part: Option<Exponent> = None;
        if frac_end < n {
            match parse_exponent(bytes, frac_end) {
                None => {
                    assert forall|l: Literal| #[trigger] l.valid() && l.text() == s implies
                        !l.in_range() by {
                        lemma_parts_match(l, s, start, int_end, frac_start, frac_end);
                        assert(l.exp->0.valid());
                    }
                    return None;
                },
                Some(v) => {
                    exp_val = v;
                    proof {
                        exp_part = Some(
                            choose|e: Exponent|
                                exponent_reads(e, s.skip(frac_end as int), v as int),
                        );
                    }
                },
            }
        }
        let ghost lit = Literal {
            neg,
            int: s.subrange(start as int, int_end as int),
            frac: s.subrange(frac_start as int, frac_end as int),
            exp: exp_part,
        };
        proof {
            assert(lit.sign_text() + lit.int =~= s.subrange(0, int_end as int));
            assert(lit.frac_text() =~= s.subrange(int_end as int, frac_end as int));
            assert(lit.exp_text() =~= s.skip(frac_end as int));
            assert(lit.text() =~= s);
            assert(lit.valid());
        }
        let r: Option<Decimal> = Decimal::from_parts(
            neg,
            slice_subrange(bytes, start, int_end),
            slice_subrange(bytes, frac_start, frac_end),
            exp_val,
        );
        proof {
            assert forall|l: Literal| #[trigger] l.valid() && l.text() == s implies l == lit by {
                literal::law_unambiguous(l, lit);
            }
        }
        r
    }

    /// Compare the magnitudes of two nonzero numbers by the place of the leading digit, then digit by
    /// digit.
    fn relate_magnitude(&self, other: &Decimal) -> (r: Relation)
        requires
            self@.0 != 0,
            other@.0 != 0,
        ensures
            r == relation_of(
                scaled(abs(self@.0) as int, self@.1, common(self@.1, other@.1)),
                scaled(abs(other@.0) as int, other@.1, common(self@.1, other@.1)),
            ),
    {
        proof {
            use_type_invariant(self);
            use_type_invariant(other);
        }
        let da: String = self.coeff.abs().to_decimal_string();
        let db: String = other.coeff.abs().to_decimal_string();
        let ghost a = abs(self@.0);
        let ghost b = abs(other@.0);
        proof {
            lemma_digits_ascii(a);
            lemma_digits_ascii(b);
        }
        let ab: &[u8] = da.as_str().as_bytes();
        let bb: &[u8] = db.as_str().as_bytes();
        proof {
            lemma_digits_len(a);
            lemma_digits_len(b);
            assert(ab@.len() == decimal_digits(a).len());
            assert(bb@.len() == decimal_digits(b).len());
        }
        let adj_a: i128 = ab.len() as i128 - 1 + self.exp as i128;
        let adj_b: i128 = bb.len() as i128 - 1 + other.exp as i128;
        if adj_a < adj_b {
            proof {
                lemma_leading_place(a, self@.1, b, other@.1);
            }
            return Relation::Less;
        }
        if adj_a > adj_b {
            proof {
                lemma_leading_place(b, other@.1, a, self@.1);
            }
            return Relation::Greater;
        }
        let ghost m = common(self@.1, other@.1);
        let ghost pa = decimal_digits(a) + zeros((self@.1 - m) as nat);
        let ghost pb = decimal_digits(b) + zeros((other@.1 - m) as nat);
        proof {
            lemma_padded_value(a, (self@.1 - m) as nat);
            lemma_padded_value(b, (other@.1 - m) as nat);
            assert(pa.len() == pb.len());
        }
        let mut k: usize = 0;
        let len: usize = if ab.len() >= bb.len() {
            ab.len()
        } else {
            bb.len()
        };
        while k < len
            invariant
                k <= len,
                len == pa.len() == pb.len(),
                ab@.len() == decimal_digits(a).len(),
                bb@.len() == decimal_digits(b).len(),
                forall|i: int| 0 <= i < ab@.len() ==> ab@[i] as char == #[trigger] decimal_digits(a)[i],
                forall|i: int| 0 <= i < bb@.len() ==> bb@[i] as char == #[trigger] decimal_digits(b)[i],
                pa == decimal_digits(a) + zeros((self@.1 - m) as nat),
                pb == decimal_digits(b) + zeros((other@.1 - m) as nat),
                pa.take(k as int) == pb.take(k as int),
                text_value(pa) == scaled(a as int, self@.1, m),
                text_value(pb) == scaled(b as int, other@.1, m),
                m == common(self@.1, other@.1),
                digit_text(pa),
                digit_text(pb),
                a == abs(self@.0),
                b == abs(other@.0),
            decreases len - k,
        {
            let ca: u8 = if k < ab.len() {
                ab[k]
            } else {
                48
            };
            let cb: u8 = if k < bb.len() {
                bb[k]
            } else {
                48
            };
            proof {
                assert(pa[k as int] == ca as char);
                assert(pb[k as int] == cb as char);
            }
            if ca < cb {
                proof {
                    lemma_first_difference(pa, pb, k as int);
                }
                return Relation::Less;
            }
            if ca > cb {
                proof {
                    lemma_first_difference(pb, pa, k as int);
                }
                return Relation::Greater;
            }
            proof {
                assert(pa.take(k + 1) =~= pa.take(k as int).push(pa[k as int]));
                assert(pb.take(k + 1) =~= pb.take(k as int).push(pb[k as int]));
            }
            k = k + 1;
        }
        proof {
            assert(pa.take(k as int) =~= pa);
            assert(pb.take(k as int) =~= pb);
        }
        Relation::Equal
    }

    /// The exact relation of two numbers.
    pub fn relate(&self, other: &Decimal) -> (r: Relation)
        ensures
            r == relation_of(
                scaled(self@.0, self@.1, common(self@.1, other@.1)),
                scaled(other@.0, other@.1, common(self@.1, other@.1)),
            ),
    {
        let ghost m = common(self@.1, other@.1);
        let ghost p = pow10((self@.1 - m) as nat) as int;
        let ghost q = pow10((other@.1 - m) as nat) as int;
        proof {
            lemma_pow10_pos((self@.1 - m) as nat);
            lemma_pow10_pos((other@.1 - m) as nat);
            lemma_sign_of_product(self@.0, p);
            lemma_sign_of_product(other@.0, q);
        }
        let sa: bool = self.is_negative();
        let sb: bool = other.is_negative();
        let za: bool = self.is_zero();
        let zb: bool = other.is_zero();
        if za && zb {
            return Relation::Equal;
        }
        if za {
            return if sb {
                Relation::Greater
            } else {
                Relation::Less
            };
        }
        if zb {
            return if sa {
                Relation::Less
            } else {
                Relation::Greater
            };
        }
        if sa != sb {
            return if sa {
                Relation::Less
            } else {
                Relation::Greater
            };
        }
        if !sa {
            return self.relate_magnitude(other);
        }
        proof {
            let x = self@.0;
            let y = other@.0;
            assert((-x) * p == -(x * p)) by (nonlinear_arith);
            assert((-y) * q == -(y * q)) by (nonlinear_arith);
        }
        match self.relate_magnitude(other) {
            Relation::Less => Relation::Greater,
            Relation::Equal => Relation::Equal,
            Relation::Greater => Relation::Less,
        }
    }

    /// Exact three-way comparison by value.
    fn compare(&self, other: &Decimal) -> (r: Ordering)
        ensures
            r == decimal_order(self@, other@),
            forall|i: nat, j: nat|
                self@.1 - i == other@.1 - j ==> (r == Ordering::Less <==> self@.0 * #[trigger] pow(10, i)
                    < other@.0 * #[trigger] pow(10, j)),
            forall|i: nat, j: nat|
                self@.1 - i == other@.1 - j ==> (r == Ordering::Equal <==> self@.0 * #[trigger] pow(10, i)
                    == other@.0 * #[trigger] pow(10, j)),
            forall|i: nat, j: nat|
                self@.1 - i == other@.1 - j ==> (r == Ordering::Greater <==> self@.0 * #[trigger] pow(10, i)
                    > other@.0 * #[trigger] pow(10, j)),
    {
        proof {
            values::lemma_order_at_any_scale(self@, other@);
        }
        match self.relate(other) {
            Relation::Less => Ordering::Less,
            Relation::Equal => Ordering::Equal,
            Relation::Greater => Ordering::Greater,
        }
    }

    /// Exact three-way comparison by value.
    pub fn cmp(&self, other: &Decimal) -> (r: Ordering)
        ensures
            r == decimal_order(self@, other@),
            forall|i: nat, j: nat|
                self@.1 - i == other@.1 - j ==> (r == Ordering::Less <==> self@.0 * #[trigger] pow(10, i)
                    < other@.0 * #[trigger] pow(10, j)),
            forall|i: nat, j: nat|
                self@.1 - i == other@.1 - j ==> (r == Ordering::Equal <==> self@.0 * #[trigger] pow(10, i)
                    == other@.0 * #[trigger] pow(10, j)),
            forall|i: nat, j: nat|
                self@.1 - i == other@.1 - j ==> (r == Ordering::Greater <==> self@.0 * #[trigger] pow(10, i)
                    > other@.0 * #[trigger] pow(10, j)),
    {
        self.compare(other)
    }

    /// The canonical text.
    fn render(&self) -> (s: String)
        ensures
            s@ == decimal_text(self@.0, self@.1),
    {
        proof {
            use_type_invariant(self);
        }
        if self.is_zero() {
            proof {
                reveal_strlit("0");
                assert("0"@ =~= seq!['0']);
            }
            return String::from_str("0");
        }
        let neg: bool = self.is_negative();
        let mag: String = self.coeff.abs().to_decimal_string();
        let ghost m = abs(self@.0);
        let mut out: String = String::new();
        if neg {
            out.append("-");
        }
        proof {
            reveal_strlit("-");
            reveal_strlit("e");
            reveal_strlit(".");
            reveal_strlit("0.");
            assert("-"@ =~= seq!['-']);
            assert("e"@ =~= seq!['e']);
            assert("."@ =~= seq!['.']);
            assert("0."@ =~= seq!['0', '.']);
            lemma_digits_ascii(m);
            lemma_digits_len(m);
        }
        let ghost head = out@;
        let l: i128 = mag.as_str().as_bytes().len() as i128;
        let e: i128 = self.exp as i128;
        if e == 0 {
            out.append(mag.as_str());
        } else if e > 0 && e <= PLAIN_PAD as i128 {
            out.append(mag.as_str());
            push_zeros(&mut out, e as u64);
            assert(head + decimal_digits(m) + zeros(e as nat) =~= head + magnitude_text(m, e as int));
        } else if e < 0 && -e < l {
            let cut: usize = (l + e) as usize;
            proof {
                vstd::utf8::is_ascii_chars_encode_utf8(mag@);
            }
            out.append(mag.as_str().substring_ascii(0, cut));
            out.append(".");
            out.append(mag.as_str().substring_ascii(cut, l as usize));
            assert(out@ =~= head + magnitude_text(m, e as int)) by {
                assert(mag@.subrange(0, cut as int) =~= mag@.take(cut as int));
                assert(mag@.subrange(cut as int, l as int) =~= mag@.skip(cut as int));
            }
        } else if e < 0 && -e <= l + PLAIN_PAD as i128 {
            out.append("0.");
            push_zeros(&mut out, (-e - l) as u64);
            out.append(mag.as_str());
            assert(out@ =~= head + magnitude_text(m, e as int));
        } else {
            out.append(mag.as_str());
            out.append("e");
            let exp: String = Big::from_i64(self.exp).to_decimal_string();
            out.append(exp.as_str());
            assert(out@ =~= head + magnitude_text(m, e as int));
        }
        proof {
            assert(out@ =~= head + magnitude_text(m, e as int));
            assert(out@ =~= decimal_text(self@.0, self@.1));
        }
        out
    }

    /// The canonical text.
    pub fn to_string(&self) -> (s: String)
        ensures
            s@ == decimal_text(self@.0, self@.1),
    {
        self.render()
    }

    /// Write the canonical text into a sink.
    pub fn write_to<W: TextSink>(&self, w: &mut W) -> (r: Result<(), SinkError>)
        ensures
            wrote(old(w).text(), final(w).text(), decimal_text(self@.0, self@.1), r is Ok),
            old(w).never_full() ==> r is Ok && final(w).never_full(),
            answered(old(w).refusals(), final(w).refusals(), final(w).refused(), r is Ok),
    {
        w.write_str(self.render().as_str())
    }
}

/// Where the parts before the exponent lie.
struct Head {
    neg: bool,
    start: usize,
    int_end: usize,
    frac_start: usize,
    frac_end: usize,
}

impl Head {
    /// The positions are those of a sign, an integer part and a fraction at the front of `s`.
    spec fn fits(self, s: Seq<u8>) -> bool {
        &&& s.len() > 0
        &&& self.neg == (s[0] == 45)
        &&& self.start == (if s[0] == 45 { 1int } else { 0int })
        &&& digit_run(s, self.start as int, self.int_end as int)
        &&& self.start < self.int_end
        &&& s[self.start as int] == 48 ==> self.int_end == self.start + 1
        &&& if self.int_end < s.len() && s[self.int_end as int] == 46 {
            &&& self.frac_start == self.int_end + 1
            &&& self.frac_start < self.frac_end
            &&& digit_run(s, self.frac_start as int, self.frac_end as int)
        } else {
            &&& self.frac_start == self.int_end
            &&& self.frac_end == self.int_end
        }
    }
}

/// Scan the sign, the integer part and the fraction.
fn scan_head(bytes: &[u8]) -> (r: Option<Head>)
    ensures
        r matches Some(h) ==> h.fits(bytes@),
        r is None ==> forall|l: Literal| !(#[trigger] l.valid() && l.text() == bytes@),
{
    let n: usize = bytes.len();
    let ghost s = bytes@;
    if n == 0 {
        assert forall|l: Literal| #[trigger] l.valid() && l.text() == s implies false by {
            lemma_literal_int(l);
        }
        return None;
    }
    let neg: bool = bytes[0] == 45;
    let start: usize = if neg {
        1
    } else {
        0
    };
    // Integer part: "0" alone, or a run that does not begin with "0".
    let int_end: usize = scan_digits(bytes, start);
    if int_end == start || (bytes[start] == 48 && int_end > start + 1) {
        assert forall|l: Literal| #[trigger] l.valid() && l.text() == s implies false by {
            lemma_literal_int(l);
            lemma_run_unique(s, start as int, int_end as int, after_int(l));
        }
        return None;
    }
    // Optional fraction: a point and at least one digit.
    let mut frac_start: usize = int_end;
    let mut pos: usize = int_end;
    if int_end < n && bytes[int_end] == 46 {
        frac_start = int_end + 1;
        pos = scan_digits(bytes, frac_start);
        if pos == frac_start {
            assert forall|l: Literal| #[trigger] l.valid() && l.text() == s implies false
                by {
                lemma_literal_int(l);
                lemma_literal_frac(l);
                lemma_run_unique(s, start as int, int_end as int, after_int(l));
                lemma_run_unique(s, frac_start as int, pos as int, after_frac(l));
            }
            return None;
        }
    }
    Some(Head { neg, start, int_end, frac_start, frac_end: pos })
}

/// Move trailing zero digits of the coefficient into the exponent, as far as it fits.
fn normalize(coeff: Big, exp: i64) -> (r: (Big, i64))
    requires
        coeff.wf(),
    ensures
        r.0.wf(),
        (r.0@, r.1 as int) == normal(coeff@, exp as int),
{
    if coeff.is_zero() {
        return (Big::zero(), 0);
    }
    let ghost target = normal(coeff@, exp as int);
    let mut c: Big = coeff;
    let mut e: i64 = exp;
    while e < i64::MAX
        invariant_except_break
            c@ != 0,
            normal(c@, e as int) == target,
        invariant
            c.wf(),
        ensures
            (c@, e as int) == target,
        decreases i64::MAX - e,
    {
        match c.divmod_u64(10) {
            None => {
                break ;
            },
            Some((q, r)) => {
                proof {
                    let v = c@;
                    assert(abs(v) % 10 == 0 <==> v % 10 == 0);
                    assert(v % 10 == 0 ==> quotient(v, 10) == v / 10);
                }
                if r != 0 {
                    break ;
                }
                c = q;
                e = e + 1;
            },
        }
    }
    (c, e)
}

/// `10^k`.
fn pow10_big(k: u64) -> (r: Big)
    ensures
        r.wf(),
        r@ == pow10(k as nat),
{
    proof {
        crate::digits::lemma_pow10_is_pow(k as nat);
    }
    Big::from_limbs(false, crate::bigint::mul::pow10_mag(k))
}

/// `coeff * 10^k`.
fn scale_pow10(coeff: &Big, k: u64) -> (r: Big)
    requires
        coeff.wf(),
    ensures
        r.wf(),
        r@ == coeff@ * pow10(k as nat),
{
    if k == 0 {
        proof {
            lemma_pow10_values();
            assert(coeff@ * 1 == coeff@);
        }
        coeff.clone()
    } else {
        coeff.mul(&pow10_big(k))
    }
}

/// Whether all bytes are ASCII digits.
fn check_digits(bytes: &[u8]) -> (r: bool)
    ensures
        r == all_digits(bytes@),
{
    let end: usize = scan_digits(bytes, 0);
    proof {
        if end < bytes@.len() {
            assert(!is_digit(bytes@[end as int]));
        }
    }
    end == bytes.len()
}

/// The end of the run of digits that starts at `start`.
fn scan_digits(bytes: &[u8], start: usize) -> (end: usize)
    requires
        start <= bytes@.len(),
    ensures
        digit_run(bytes@, start as int, end as int),
{
    let mut i: usize = start;
    while i < bytes.len() && bytes[i] >= 48 && bytes[i] <= 57
        invariant
            start <= i <= bytes@.len(),
            forall|k: int| start <= k < i ==> is_digit(#[trigger] bytes@[k]),
        decreases bytes@.len() - i,
    {
        i = i + 1;
    }
    i
}

pub proof fn lemma_digits_value_step(s: Seq<u8>, i: int)
    requires
        0 <= i < s.len(),
        is_digit(s[i]),
    ensures
        digits_value(s.take(i + 1)) == digits_value(s.take(i)) * 10 + (s[i] - 48),
{
    assert(s.take(i + 1).drop_last() =~= s.take(i));
}

pub proof fn lemma_digits_value_bound(s: Seq<u8>)
    requires
        all_digits(s),
    ensures
        digits_value(s) < pow10(s.len()),
    decreases s.len(),
{
    if s.len() > 0 {
        assert(all_digits(s.drop_last())) by {
            assert forall|i: int| 0 <= i < s.len() - 1 implies is_digit(#[trigger] s.drop_last()[i]) by {
                assert(s.drop_last()[i] == s[i]);
            }
        }
        lemma_digits_value_bound(s.drop_last());
        assert(is_digit(s[s.len() - 1]));
    }
}

pub proof fn lemma_digits_value_concat(a: Seq<u8>, b: Seq<u8>)
    requires
        all_digits(b),
    ensures
        digits_value(a + b) == digits_value(a) * pow10(b.len()) + digits_value(b),
    decreases b.len(),
{
    if b.len() == 0 {
        assert(a + b =~= a);
        assert(digits_value(a) * 1 == digits_value(a));
    } else {
        assert(all_digits(b.drop_last())) by {
            assert forall|i: int| 0 <= i < b.len() - 1 implies is_digit(#[trigger] b.drop_last()[i]) by {
                assert(b.drop_last()[i] == b[i]);
            }
        }
        lemma_digits_value_concat(a, b.drop_last());
        assert((a + b).drop_last() =~= a + b.drop_last());
        assert(is_digit(b[b.len() - 1]));
        let v = digits_value(a) as int;
        let p = pow10((b.len() - 1) as nat) as int;
        assert((v * p) * 10 == v * (10 * p)) by (nonlinear_arith);
    }
}

/// Read at most 18 digits.
fn read_exponent(bytes: &[u8], start: usize, end: usize) -> (r: i64)
    requires
        start <= end <= bytes@.len(),
        end - start <= 18,
        forall|k: int| start <= k < end ==> is_digit(#[trigger] bytes@[k]),
    ensures
        r == digits_value(bytes@.subrange(start as int, end as int)),
        0 <= r < 1_000_000_000_000_000_000,
{
    let ghost s = bytes@.subrange(start as int, end as int);
    let mut r: i64 = 0;
    let mut i: usize = start;
    proof {
        assert(s.take(0).len() == 0);
        lemma_pow10_values();
    }
    while i < end
        invariant
            start <= i <= end <= bytes@.len(),
            end - start <= 18,
            s == bytes@.subrange(start as int, end as int),
            forall|k: int| start <= k < end ==> is_digit(#[trigger] bytes@[k]),
            r == digits_value(s.take(i - start)),
            0 <= r < pow10((i - start) as nat),
        decreases end - i,
    {
        proof {
            assert(s[i - start] == bytes@[i as int]);
            lemma_digits_value_step(s, i - start);
            lemma_pow10_mono((i - start + 1) as nat, 18);
            lemma_pow10_values();
        }
        r = r * 10 + (bytes[i] - 48) as i64;
        i = i + 1;
    }
    proof {
        assert(s.take(i - start) =~= s);
        lemma_pow10_mono((end - start) as nat, 18);
        lemma_pow10_values();
    }
    r
}

/// `e` is a reading of `t` as an exponent of at most 18 digits, with value `v`.
pub open spec fn exponent_reads(e: Exponent, t: Seq<u8>, v: int) -> bool {
    &&& e.valid()
    &&& e.text() == t
    &&& e.digits.len() <= 18
    &&& e.value() == v
}

/// `t` reads as an exponent of at most 18 digits with value `v`.
pub open spec fn exponent_parses(t: Seq<u8>, v: int) -> bool {
    exists|e: Exponent| exponent_reads(e, t, v)
}

/// Parse the exponent part that begins at `at` and runs to the end of the bytes.
fn parse_exponent(bytes: &[u8], at: usize) -> (r: Option<i64>)
    requires
        at < bytes@.len(),
    ensures
        r matches Some(v) ==> exponent_parses(bytes@.skip(at as int), v as int),
        r is None ==> forall|e: Exponent|
            #[trigger] e.valid() && e.text() == bytes@.skip(at as int) ==> e.digits.len() > 18,
        r matches Some(v) ==> -1_000_000_000_000_000_000 < v < 1_000_000_000_000_000_000,
{
    let n: usize = bytes.len();
    let ghost t = bytes@.skip(at as int);
    if bytes[at] != 101 && bytes[at] != 69 {
        assert forall|e: Exponent| #[trigger] e.valid() && e.text() == t implies e.digits.len() > 18 by {
            lemma_exponent_shape(e);
            assert(t[0] == bytes@[at as int]);
        }
        return None;
    }
    let mut start: usize = at + 1;
    let mut neg: bool = false;
    if start < n && (bytes[start] == 43 || bytes[start] == 45) {
        neg = bytes[start] == 45;
        start = start + 1;
    }
    let ghost p = start - at;
    let end: usize = scan_digits(bytes, start);
    proof {
        assert(digit_run(t, p, end - at)) by {
            assert forall|i: int| p <= i < end - at implies is_digit(#[trigger] t[i]) by {
                assert(t[i] == bytes@[at + i]);
            }
            if end < n {
                assert(t[end - at] == bytes@[end as int]);
            }
        }
    }
    if end == start || end - start > 18 || end != n {
        assert forall|e: Exponent| #[trigger] e.valid() && e.text() == t implies e.digits.len() > 18 by {
            lemma_exponent_shape(e);
            assert(t[1] == bytes@[at + 1]);
            assert(exponent_digits_at(e) == p);
            lemma_run_unique(t, p, end - at, t.len() as int);
        }
        return None;
    }
    let mut v: i64 = read_exponent(bytes, start, end);
    let ghost e = Exponent {
        marker: bytes@[at as int],
        sign: if p == 2 {
            Some(bytes@[at + 1])
        } else {
            None
        },
        digits: bytes@.subrange(start as int, n as int),
    };
    proof {
        assert(e.text() =~= t);
        assert forall|i: int| 0 <= i < e.digits.len() implies is_digit(#[trigger] e.digits[i]) by {
            assert(e.digits[i] == bytes@[start + i]);
        }
        assert(e.valid());
    }
    if neg {
        v = -v;
    }
    assert(exponent_reads(e, t, v as int));
    assert(exponent_parses(t, v as int));
    Some(v)
}

/// Append digits to a number, in chunks of at most 18.
fn append_digits(acc: Big, digits: &[u8]) -> (r: Big)
    requires
        acc.wf(),
        acc@ >= 0,
        all_digits(digits@),
    ensures
        r.wf(),
        r@ == acc@ * pow10(digits@.len()) + digits_value(digits@),
{
    let n: usize = digits.len();
    let ghost a0 = acc@;
    let mut cur: Big = acc;
    let mut i: usize = 0;
    proof {
        assert(digits@.take(0).len() == 0);
        assert(a0 * 1 == a0);
    }
    while i < n
        invariant
            n == digits@.len(),
            i <= n,
            all_digits(digits@),
            cur.wf(),
            cur@ == a0 * pow10(i as nat) + digits_value(digits@.take(i as int)),
        decreases n - i,
    {
        let k: usize = if n - i >= 18 {
            18
        } else {
            n - i
        };
        let chunk: i64 = read_exponent(digits, i, i + k);
        let scale: Big = pow10_big(k as u64);
        cur = cur.mul(&scale).add(&Big::from_i64(chunk));
        proof {
            let c = digits@.subrange(i as int, i + k);
            assert forall|j: int| 0 <= j < c.len() implies is_digit(#[trigger] c[j]) by {
                assert(c[j] == digits@[i + j]);
            }
            lemma_digits_value_concat(digits@.take(i as int), c);
            assert(digits@.take(i + k) =~= digits@.take(i as int) + c);
            lemma_pow10_add(i as nat, k as nat);
            let p = pow10(i as nat) as int;
            let q = pow10(k as nat) as int;
            let v = digits_value(digits@.take(i as int)) as int;
            assert((a0 * p + v) * q == a0 * (p * q) + v * q) by (nonlinear_arith);
        }
        i = i + k;
    }
    proof {
        assert(digits@.take(n as int) =~= digits@);
    }
    cur
}

/// The number that two digit strings, one behind the other, denote.
fn big_from_ascii_digits(int_digits: &[u8], frac_digits: &[u8]) -> (r: Big)
    requires
        all_digits(int_digits@),
        all_digits(frac_digits@),
    ensures
        r.wf(),
        r@ == digits_value(int_digits@ + frac_digits@),
{
    let int_part: Big = append_digits(Big::zero(), int_digits);
    proof {
        assert(0 * pow10(int_digits@.len()) == 0) by (nonlinear_arith);
        lemma_digits_value_concat(int_digits@, frac_digits@);
    }
    append_digits(int_part, frac_digits)
}

/// The scanned positions are those of every reading of the text.
proof fn lemma_parts_match(
    l: Literal,
    s: Seq<u8>,
    start: usize,
    int_end: usize,
    frac_start: usize,
    frac_end: usize,
)
    requires
        l.valid(),
        l.text() == s,
        start == (if s[0] == 45 { 1int } else { 0int }),
        digit_run(s, start as int, int_end as int),
        int_end < s.len() && s[int_end as int] == 46 ==> {
            &&& frac_start == int_end + 1
            &&& digit_run(s, frac_start as int, frac_end as int)
        },
        !(int_end < s.len() && s[int_end as int] == 46) ==> frac_end == int_end,
    ensures
        after_sign(l) == start,
        after_int(l) == int_end,
        after_frac(l) == frac_end,
        l.exp is Some <==> frac_end < s.len(),
        l.exp matches Some(e) ==> s.skip(frac_end as int) == e.text(),
{
    lemma_literal_int(l);
    lemma_literal_frac(l);
    lemma_run_unique(s, start as int, int_end as int, after_int(l));
    if l.frac.len() > 0 {
        lemma_run_unique(s, frac_start as int, frac_end as int, after_frac(l));
    }
}

proof fn lemma_sign_of_product(x: int, p: int)
    requires
        p >= 1,
    ensures
        x < 0 ==> x * p < 0,
        x == 0 ==> x * p == 0,
        x > 0 ==> x * p > 0,
{
    assert(x < 0 ==> x * p < 0) by (nonlinear_arith)
        requires
            p >= 1,
    ;
    assert(x == 0 ==> x * p == 0) by (nonlinear_arith);
    assert(x > 0 ==> x * p > 0) by (nonlinear_arith)
        requires
            p >= 1,
    ;
}

/// A lower leading place means a smaller magnitude.
proof fn lemma_leading_place(a: nat, ea: int, b: nat, eb: int)
    requires
        a > 0,
        b > 0,
        decimal_digits(a).len() + ea < decimal_digits(b).len() + eb,
    ensures
        scaled(a as int, ea, common(ea, eb)) < scaled(b as int, eb, common(ea, eb)),
{
    let m = common(ea, eb);
    let la = decimal_digits(a).len();
    let lb = decimal_digits(b).len();
    lemma_digits_len(a);
    lemma_digits_len(b);
    let i = (ea - m) as nat;
    let j = (eb - m) as nat;
    lemma_pow10_pos(i);
    lemma_pow10_pos(j);
    lemma_pow10_add(la, i);
    lemma_pow10_add((lb - 1) as nat, j);
    lemma_pow10_mono(la + i, (lb - 1) as nat + j);
    let p = pow10(i) as int;
    let q = pow10(j) as int;
    let ha = pow10(la) as int;
    let hb = pow10((lb - 1) as nat) as int;
    assert(a * p < ha * p) by (nonlinear_arith)
        requires
            a < ha,
            p >= 1,
    ;
    assert(hb * q <= b * q) by (nonlinear_arith)
        requires
            hb <= b,
            q >= 1,
    ;
}

/// The number that a text of digits denotes.
pub open spec fn text_value(s: Seq<char>) -> nat
    decreases s.len(),
{
    if s.len() == 0 {
        0
    } else {
        (text_value(s.drop_last()) * 10 + (s.last() as int - 48)) as nat
    }
}

pub open spec fn digit_text(s: Seq<char>) -> bool {
    forall|i: int| 0 <= i < s.len() ==> 48 <= (#[trigger] s[i]) as int <= 57
}

proof fn lemma_text_bound(s: Seq<char>)
    requires
        digit_text(s),
    ensures
        text_value(s) < pow10(s.len()),
    decreases s.len(),
{
    if s.len() > 0 {
        assert(digit_text(s.drop_last())) by {
            assert forall|i: int| 0 <= i < s.len() - 1 implies 48 <= (
            #[trigger] s.drop_last()[i]) as int <= 57 by {
                assert(s.drop_last()[i] == s[i]);
            }
        }
        lemma_text_bound(s.drop_last());
        assert(48 <= s[s.len() - 1] as int <= 57);
    }
}

pub proof fn lemma_text_concat(a: Seq<char>, b: Seq<char>)
    requires
        digit_text(b),
    ensures
        text_value(a + b) == text_value(a) * pow10(b.len()) + text_value(b),
    decreases b.len(),
{
    if b.len() == 0 {
        assert(a + b =~= a);
        assert(text_value(a) * 1 == text_value(a));
    } else {
        assert(digit_text(b.drop_last())) by {
            assert forall|i: int| 0 <= i < b.len() - 1 implies 48 <= (
            #[trigger] b.drop_last()[i]) as int <= 57 by {
                assert(b.drop_last()[i] == b[i]);
            }
        }
        lemma_text_concat(a, b.drop_last());
        assert((a + b).drop_last() =~= a + b.drop_last());
        assert(48 <= b[b.len() - 1] as int <= 57);
        let v = text_value(a) as int;
        let p = pow10((b.len() - 1) as nat) as int;
        assert((v * p) * 10 == v * (10 * p)) by (nonlinear_arith);
    }
}

/// The digits of a number denote it.
pub proof fn lemma_digits_text(n: nat)
    ensures
        digit_text(decimal_digits(n)),
        text_value(decimal_digits(n)) == n,
    decreases n,
{
    let s = decimal_digits(n);
    if n >= 10 {
        lemma_digits_text(n / 10);
        assert(s.drop_last() =~= decimal_digits(n / 10));
        assert forall|i: int| 0 <= i < s.len() implies 48 <= (#[trigger] s[i]) as int <= 57 by {
            if i < s.len() - 1 {
                assert(s[i] == decimal_digits(n / 10)[i]);
            }
        }
    } else {
        assert(s.drop_last().len() == 0);
        assert(text_value(s.drop_last()) == 0);
    }
}

/// Zeros behind the digits scale the number.
pub proof fn lemma_padded_value(n: nat, k: nat)
    ensures
        digit_text(decimal_digits(n) + zeros(k)),
        text_value(decimal_digits(n) + zeros(k)) == n * pow10(k),
{
    lemma_digits_text(n);
    let d = decimal_digits(n);
    let z = zeros(k);
    lemma_zeros_value(k);
    lemma_text_concat(d, z);
    assert forall|i: int| 0 <= i < (d + z).len() implies 48 <= (#[trigger] (d + z)[i]) as int <= 57 by {
        if i < d.len() {
            assert((d + z)[i] == d[i]);
        }
    }
}

pub proof fn lemma_zeros_value(k: nat)
    ensures
        text_value(zeros(k)) == 0,
        digit_text(zeros(k)),
    decreases k,
{
    if k > 0 {
        lemma_zeros_value((k - 1) as nat);
        assert(zeros(k).drop_last() =~= zeros((k - 1) as nat));
    }
}

/// The first differing digit decides between texts of equal length.
proof fn lemma_first_difference(s: Seq<char>, t: Seq<char>, k: int)
    requires
        s.len() == t.len(),
        0 <= k < s.len(),
        digit_text(s),
        digit_text(t),
        s.take(k) == t.take(k),
        (s[k] as int) < (t[k] as int),
    ensures
        text_value(s) < text_value(t),
{
    let x = s.take(k + 1);
    let y = t.take(k + 1);
    let u = s.skip(k + 1);
    let v = t.skip(k + 1);
    assert(x.drop_last() =~= s.take(k));
    assert(y.drop_last() =~= t.take(k));
    assert forall|i: int| 0 <= i < u.len() implies 48 <= (#[trigger] u[i]) as int <= 57 by {
        assert(u[i] == s[k + 1 + i]);
    }
    assert forall|i: int| 0 <= i < v.len() implies 48 <= (#[trigger] v[i]) as int <= 57 by {
        assert(v[i] == t[k + 1 + i]);
    }
    assert(48 <= s[k] as int);
    assert(48 <= t[k] as int);
    lemma_text_concat(x, u);
    lemma_text_concat(y, v);
    assert(s =~= x + u);
    assert(t =~= y + v);
    lemma_text_bound(u);
    let p = pow10(u.len()) as int;
    let a = text_value(x) as int;
    let b = text_value(y) as int;
    assert(a + 1 <= b);
    assert(a * p + p <= b * p) by (nonlinear_arith)
        requires
            a + 1 <= b,
            p >= 0,
    ;
}

/// Digits are ASCII: their UTF-8 bytes are their character codes.
proof fn lemma_digits_ascii(n: nat)
    ensures
        vstd::utf8::is_ascii_chars(decimal_digits(n)),
        vstd::utf8::encode_utf8(decimal_digits(n)).len() == decimal_digits(n).len(),
        forall|i: int|
            0 <= i < decimal_digits(n).len() ==> vstd::utf8::encode_utf8(decimal_digits(n))[i] as char
                == #[trigger] decimal_digits(n)[i],
{
    lemma_digits_text(n);
    let s = decimal_digits(n);
    assert(vstd::utf8::is_ascii_chars(s)) by {
        assert forall|i: int| 0 <= i < s.len() implies 0 <= (#[trigger] s[i]) as nat <= 127 by {
            assert(48 <= s[i] as int <= 57);
        }
    }
    vstd::utf8::is_ascii_chars_encode_utf8(s);
    assert forall|i: int| 0 <= i < s.len() implies vstd::utf8::encode_utf8(s)[i] as char
        == #[trigger] s[i] by {
        assert(48 <= s[i] as int <= 57);
    }
}

/// Append zeros to a string.
fn push_zeros(s: &mut String, n: u64)
    ensures
        final(s)@ == old(s)@ + zeros(n as nat),
{
    let mut i: u64 = 0;
    proof {
        assert(old(s)@ + zeros(0) =~= old(s)@);
        reveal_strlit("0");
    }
    while i < n
        invariant
            i <= n,
            s@ == old(s)@ + zeros(i as nat),
        decreases n - i,
    {
        s.append("0");
        proof {
            reveal_strlit("0");
            assert(s@ =~= old(s)@ + zeros((i + 1) as nat));
        }
        i = i + 1;
    }
}

impl Clone for Decimal {
    fn clone(&self) -> (r: Decimal)
        ensures
            r@ == self@,
    {
        proof {
            use_type_invariant(self);
        }
        Decimal { coeff: self.coeff.clone(), exp: self.exp }
    }
}

impl PartialEqSpecImpl for Decimal {
    open spec fn obeys_eq_spec() -> bool {
        true
    }

    open spec fn eq_spec(&self, other: &Decimal) -> bool {
        self@ == other@
    }
}

impl PartialEq for Decimal {
    fn eq(&self, other: &Decimal) -> (r: bool)
        ensures
            r <==> self@ == other@,
            forall|i: nat, j: nat|
                self@.1 - i == other@.1 - j ==> (r <==> self@.0 * #[trigger] pow(10, i) == other@.0
                    * #[trigger] pow(10, j)),
    {
        proof {
            values::lemma_same_at_any_scale(self, other);
            use_type_invariant(self);
            use_type_invariant(other);
            law_unique_form(&self.coeff, &other.coeff);
        }
        self.coeff == other.coeff && self.exp == other.exp
    }
}

impl Eq for Decimal {

}

impl PartialOrdSpecImpl for Decimal {
    open spec fn obeys_partial_cmp_spec() -> bool {
        true
    }

    open spec fn partial_cmp_spec(&self, other: &Decimal) -> Option<Ordering> {
        Some(decimal_order(self@, other@))
    }
}

impl PartialOrd for Decimal {
    fn partial_cmp(&self, other: &Decimal) -> (r: Option<Ordering>)
        ensures
            r is Some,
            forall|i: nat, j: nat|
                self@.1 - i == other@.1 - j ==> (r == Some(Ordering::Less) <==> self@.0 * #[trigger] pow(10, i)
                    < other@.0 * #[trigger] pow(10, j)),
            forall|i: nat, j: nat|
                self@.1 - i == other@.1 - j ==> (r == Some(Ordering::Equal) <==> self@.0 * #[trigger] pow(10, i)
                    == other@.0 * #[trigger] pow(10, j)),
            forall|i: nat, j: nat|
                self@.1 - i == other@.1 - j ==> (r == Some(Ordering::Greater) <==> self@.0 * #[trigger] pow(10, i)
                    > other@.0 * #[trigger] pow(10, j)),
    {
        Some(self.compare(other))
    }
}

impl std::str::FromStr for Decimal {
    type Err = ParseDecimalError;

    fn from_str(s: &str) -> (r: Result<Decimal, ParseDecimalError>)
        ensures
            r matches Ok(d) ==> exists|l: Literal|
                {
                    &&& #[trigger] l.valid()
                    &&& l.text() == s.spec_bytes()
                    &&& l.in_range()
                    &&& d@ == normal(l.coefficient(), l.exponent())
                },
            r matches Err(e) ==> e == ParseDecimalError && forall|l: Literal|
                #[trigger] l.valid() && l.text() == s.spec_bytes() ==> !l.in_range(),
    {
        match Decimal::from_ascii(s.as_bytes()) {
            Some(d) => Ok(d),
            None => Err(ParseDecimalError),
        }
    }
}

} // verus!
