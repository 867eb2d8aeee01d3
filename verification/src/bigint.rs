//! Arbitrary-precision signed integers over base-2^64 limbs.
//!
//! [`Big`] is a sign and a little-endian magnitude with no trailing zero limbs; zero is the empty
//! magnitude and is never negative. Every value therefore has exactly one in-memory form, and its
//! sign-magnitude byte encoding is unique.
use crate::digits::decimal_digits;
use crate::text::{answered, lemma_wrote_failed, lemma_wrote_then, wrote, SinkError, TextSink};
use std::cmp::Ordering;
use vstd::math::abs;
use vstd::prelude::*;
use vstd::slice::slice_to_vec;
use vstd::std_specs::cmp::PartialEqSpecImpl;

pub mod addsub;
pub mod codec;
pub mod div;
pub mod gcd;
pub mod laws;
pub mod limbs;
pub mod mul;
pub mod places;
pub mod render;
pub mod shift;
pub mod word;

use addsub::{
    add_mag, add_mag_inplace, relate_mag, relation_of, rsub_mag_inplace, sub_mag, sub_mag_inplace,
    Relation,
};
use codec::{
    bytes_val, le_bytes, lemma_bytes_bound, lemma_pow256_mono, lemma_pow256_values,
    limbs_from_bytes, magnitude_bytes, pow256, read_word, sign_magnitude, sign_magnitude_value,
    twos_bytes, twos_magnitude, twos_minimal, twos_value,
};
use div::{div_rem_limb_inplace, divmod_mag, divmod_mag_impl, rem_by_limb};
use gcd::{binary_gcd, gcd, gcd_u64, lemma_gcd_symmetric};
use limbs::{
    bpow, canonical, lemma_bpow_mono, lemma_canonical_lower, lemma_val_bound, lemma_val_single,
    limbs_val, strip,
};
use mul::{mul_add_u64_inplace, mul_mag, mul_mag_into};
use render::{digit_count_mag, write_decimal_mag};
use shift::{bit_length, bitlen_mag};

verus! {

/// An arbitrary-precision signed integer in canonical form.
#[derive(Debug)]
pub struct Big {
    neg: bool,
    mag: Vec<u64>,
}

/// How two integers compare, as an [`Ordering`].
pub open spec fn order_of(x: int, y: int) -> Ordering {
    if x < y {
        Ordering::Less
    } else if x == y {
        Ordering::Equal
    } else {
        Ordering::Greater
    }
}

/// The quotient of `a / b`, truncated toward zero.
pub open spec fn quotient(a: int, b: int) -> int {
    if (a < 0) != (b < 0) {
        -((abs(a) / abs(b)) as int)
    } else {
        (abs(a) / abs(b)) as int
    }
}

/// The remainder of `a / b`, with the sign of `a`.
pub open spec fn remainder(a: int, b: int) -> int {
    if a < 0 {
        -((abs(a) % abs(b)) as int)
    } else {
        (abs(a) % abs(b)) as int
    }
}

/// The decimal text of an integer.
pub open spec fn signed_decimal(v: int) -> Seq<char> {
    if v < 0 {
        seq!['-'] + decimal_digits(abs(v))
    } else {
        decimal_digits(abs(v))
    }
}

/// The value of base-`10^k` limbs, most significant first.
pub open spec fn chunks_value(limbs: Seq<u64>, k: nat) -> nat
    decreases limbs.len(),
{
    if limbs.len() == 0 {
        0
    } else {
        chunks_value(limbs.drop_last(), k) * crate::digits::pow10(k) + limbs.last() as nat
    }
}

/// How two sign-magnitude byte strings compare: by sign, then by magnitude length, then by magnitude.
pub open spec fn sign_magnitude_order(a: Seq<u8>, b: Seq<u8>) -> Ordering {
    let a_neg = a.len() > 0 && a[0] != 0;
    let b_neg = b.len() > 0 && b[0] != 0;
    if !a_neg && b_neg {
        Ordering::Greater
    } else if a_neg && !b_neg {
        Ordering::Less
    } else if a_neg {
        magnitude_order(magnitude_part(b), magnitude_part(a))
    } else {
        magnitude_order(magnitude_part(a), magnitude_part(b))
    }
}

/// The bytes behind the sign byte.
pub open spec fn magnitude_part(s: Seq<u8>) -> Seq<u8> {
    if s.len() == 0 {
        s
    } else {
        s.skip(1)
    }
}

/// Longer is larger; at equal length the value decides.
pub open spec fn magnitude_order(a: Seq<u8>, b: Seq<u8>) -> Ordering {
    if a.len() < b.len() {
        Ordering::Less
    } else if a.len() > b.len() {
        Ordering::Greater
    } else if bytes_val(a) < bytes_val(b) {
        Ordering::Less
    } else if bytes_val(a) == bytes_val(b) {
        Ordering::Equal
    } else {
        Ordering::Greater
    }
}

impl View for Big {
    type V = int;

    closed spec fn view(&self) -> int {
        if self.neg {
            -(limbs_val(self.mag@) as int)
        } else {
            limbs_val(self.mag@) as int
        }
    }
}

fn to_ordering(r: Relation) -> (o: Ordering)
    ensures
        o == match r {
            Relation::Less => Ordering::Less,
            Relation::Equal => Ordering::Equal,
            Relation::Greater => Ordering::Greater,
        },
{
    match r {
        Relation::Less => Ordering::Less,
        Relation::Equal => Ordering::Equal,
        Relation::Greater => Ordering::Greater,
    }
}

/// The relation of two signed magnitudes.
fn relate_signed(a_neg: bool, a: &[u64], b_neg: bool, b: &[u64]) -> (r: Relation)
    requires
        canonical(a@),
        canonical(b@),
        a_neg ==> a@.len() > 0,
        b_neg ==> b@.len() > 0,
    ensures
        r == relation_of(signed(a_neg, limbs_val(a@)), signed(b_neg, limbs_val(b@))),
{
    proof {
        if a_neg {
            lemma_canonical_lower(a@);
        }
        if b_neg {
            lemma_canonical_lower(b@);
        }
    }
    if !a_neg && b_neg {
        Relation::Greater
    } else if a_neg && !b_neg {
        Relation::Less
    } else if !a_neg {
        relate_mag(a, b)
    } else {
        relate_mag(b, a)
    }
}

/// A sign applied to a magnitude.
pub open spec fn signed(neg: bool, m: nat) -> int {
    if neg {
        -(m as int)
    } else {
        m as int
    }
}

impl Big {
    /// The canonical form: no trailing zero limb, and zero is not negative.
    pub closed spec fn wf(&self) -> bool {
        &&& canonical(self.mag@)
        &&& self.mag@.len() == 0 ==> !self.neg
    }

    /// Whether two values have the same in-memory form.
    pub closed spec fn same(&self, other: &Big) -> bool {
        self.neg == other.neg && self.mag@ == other.mag@
    }

    /// The sign and the magnitude are determined by the value.
    proof fn lemma_parts(&self)
        requires
            self.wf(),
        ensures
            self.neg <==> self@ < 0,
            self.mag@.len() == 0 <==> self@ == 0,
            abs(self@) == limbs_val(self.mag@),
    {
        if self.mag@.len() > 0 {
            lemma_canonical_lower(self.mag@);
        }
    }

    /// Builds a value from a sign and little-endian limbs, in any form.
    pub fn from_limbs(neg: bool, mag: Vec<u64>) -> (r: Big)
        ensures
            r.wf(),
            r@ == signed(neg, limbs_val(mag@)),
    {
        let mut r: Big = Big { neg, mag };
        r.normalize();
        r
    }

    /// The magnitude limbs, least significant first, without trailing zero limbs.
    pub fn limbs(&self) -> (s: &[u64])
        requires
            self.wf(),
        ensures
            canonical(s@),
            limbs_val(s@) == abs(self@),
    {
        self.mag.as_slice()
    }

    /// The canonical zero.
    pub fn zero() -> (r: Big)
        ensures
            r.wf(),
            r@ == 0,
    {
        Big { neg: false, mag: Vec::new() }
    }

    /// Whether this is zero.
    pub fn is_zero(&self) -> (r: bool)
        requires
            self.wf(),
        ensures
            r == (self@ == 0),
    {
        proof {
            self.lemma_parts();
        }
        self.mag.len() == 0
    }

    /// Whether this is strictly negative.
    pub fn is_negative(&self) -> (r: bool)
        requires
            self.wf(),
        ensures
            r == (self@ < 0),
    {
        proof {
            self.lemma_parts();
        }
        self.neg
    }

    /// Whether this is even.
    pub fn is_even(&self) -> (r: bool)
        requires
            self.wf(),
        ensures
            r == (self@ % 2 == 0),
    {
        if self.mag.len() == 0 {
            true
        } else {
            self.mag[0] % 2 == 0
        }
    }

    /// Whether this is odd.
    pub fn is_odd(&self) -> (r: bool)
        requires
            self.wf(),
        ensures
            r == (self@ % 2 == 1),
    {
        !self.is_even()
    }

    /// The least significant decimal digit of the magnitude.
    ///
    /// Since `2^64 = 6 (mod 10)` and `6^k = 6 (mod 10)`, every limb above the lowest contributes its
    /// value times six.
    pub fn last_decimal_digit(&self) -> (r: u8)
        requires
            self.wf(),
        ensures
            r == abs(self@) % 10,
    {
        let n: usize = self.mag.len();
        if n == 0 {
            return 0;
        }
        let mut high: u64 = 0;
        let mut i: usize = n;
        proof {
            assert(self.mag@.skip(n as int).len() == 0);
        }
        while i > 1
            invariant
                n == self.mag@.len(),
                1 <= i <= n,
                high < 10,
                (6 * limbs_val(self.mag@.skip(i as int))) % 10 == (6 * high) % 10,
            decreases i,
        {
            i = i - 1;
            let ghost h0 = high as int;
            high = (high + self.mag[i] % 10) % 10;
            proof {
                limbs::lemma_val_skip(self.mag@, i as int);
                let v = limbs_val(self.mag@.skip(i + 1)) as int;
                lemma_limb_mod10(self.mag@[i as int] as int, v, h0);
            }
        }
        proof {
            limbs::lemma_val_skip(self.mag@, 0);
            assert(self.mag@.skip(0) =~= self.mag@);
            let v = limbs_val(self.mag@.skip(1)) as int;
            let x = self.mag@[0] as int;
            let k = (6 * v) / 10 - (6 * high as int) / 10;
            let t = x / 10 + 0x1999_9999_9999_9999 * v + k;
            assert(x + 0x1_0000_0000_0000_0000 * v == 10 * t + (x % 10 + 6 * high));
            vstd::arithmetic::div_mod::lemma_mod_multiples_vanish(t, x % 10 + 6 * high, 10);
        }
        ((self.mag[0] % 10 + 6 * high) % 10) as u8
    }

    /// The absolute value.
    pub fn abs(&self) -> (r: Big)
        requires
            self.wf(),
        ensures
            r.wf(),
            r@ == abs(self@),
    {
        Big { neg: false, mag: slice_to_vec(self.mag.as_slice()) }
    }

    /// The number of bits in the magnitude, and `0` for zero.
    pub fn bit_len(&self) -> (r: usize)
        requires
            self.wf(),
            bit_length(abs(self@)) <= usize::MAX,
        ensures
            r == bit_length(abs(self@)),
    {
        bitlen_mag(self.mag.as_slice()) as usize
    }

    /// The number of significant bytes in the magnitude, and `0` for zero.
    pub fn byte_len(&self) -> (r: usize)
        requires
            self.wf(),
            le_bytes(abs(self@)).len() <= usize::MAX,
        ensures
            r == le_bytes(abs(self@)).len(),
    {
        proof {
            lemma_byte_length(abs(self@));
            assert(self.mag@.len() == self.mag.len());
        }
        ((bitlen_mag(self.mag.as_slice()) + 7) / 8) as usize
    }

    /// The number of decimal digits of the magnitude; zero has one.
    pub fn decimal_digit_count(&self) -> (r: u64)
        requires
            self.wf(),
            decimal_digits(abs(self@)).len() <= u64::MAX,
        ensures
            r == decimal_digits(abs(self@)).len(),
    {
        digit_count_mag(self.mag.as_slice())
    }

    /// Strip trailing zero limbs and force a zero magnitude to non-negative.
    fn normalize(&mut self)
        ensures
            final(self).wf(),
            final(self)@ == old(self)@,
            final(self).neg ==> old(self).neg,
    {
        strip(&mut self.mag);
        if self.mag.len() == 0 {
            self.neg = false;
        }
    }

    /// Signed comparison.
    pub fn cmp(&self, other: &Big) -> (r: Ordering)
        requires
            self.wf(),
            other.wf(),
        ensures
            r == order_of(self@, other@),
    {
        to_ordering(relate_signed(self.neg, self.mag.as_slice(), other.neg, other.mag.as_slice()))
    }

    /// The relation of two values.
    pub fn relate(&self, other: &Big) -> (r: Relation)
        requires
            self.wf(),
            other.wf(),
        ensures
            r == relation_of(self@, other@),
    {
        relate_signed(self.neg, self.mag.as_slice(), other.neg, other.mag.as_slice())
    }

    /// Compare two values by their sign-magnitude byte encodings, without decoding them.
    pub fn cmp_sign_magnitude_bytes(a: &[u8], b: &[u8]) -> (r: Ordering)
        ensures
            r == sign_magnitude_order(a@, b@),
    {
        let a_neg: bool = a.len() > 0 && a[0] != 0;
        let b_neg: bool = b.len() > 0 && b[0] != 0;
        if !a_neg && b_neg {
            Ordering::Greater
        } else if a_neg && !b_neg {
            Ordering::Less
        } else if a_neg {
            to_ordering(relate_magnitude_bytes(b, a))
        } else {
            to_ordering(relate_magnitude_bytes(a, b))
        }
    }

    /// Signed addition over sign and magnitude operands.
    fn add_signed(a_neg: bool, a: &[u64], b_neg: bool, b: &[u64]) -> (r: Big)
        requires
            canonical(a@),
            canonical(b@),
        ensures
            r.wf(),
            r@ == signed(a_neg, limbs_val(a@)) + signed(b_neg, limbs_val(b@)),
    {
        let mut r: Big = if a_neg == b_neg {
            Big { neg: a_neg, mag: add_mag(a, b) }
        } else {
            match relate_mag(a, b) {
                Relation::Equal => Big::zero(),
                Relation::Greater => Big { neg: a_neg, mag: sub_mag(a, b) },
                Relation::Less => Big { neg: b_neg, mag: sub_mag(b, a) },
            }
        };
        r.normalize();
        r
    }

    /// `self + other`.
    pub fn add(&self, other: &Big) -> (r: Big)
        requires
            self.wf(),
            other.wf(),
        ensures
            r.wf(),
            r@ == self@ + other@,
    {
        Big::add_signed(self.neg, self.mag.as_slice(), other.neg, other.mag.as_slice())
    }

    /// `-self`.
    pub fn neg(&self) -> (r: Big)
        requires
            self.wf(),
        ensures
            r.wf(),
            r@ == -self@,
    {
        proof {
            self.lemma_parts();
        }
        if self.mag.len() == 0 {
            return Big::zero();
        }
        Big { neg: !self.neg, mag: slice_to_vec(self.mag.as_slice()) }
    }

    /// Negate in place.
    pub fn negate(&mut self)
        requires
            old(self).wf(),
        ensures
            final(self).wf(),
            final(self)@ == -old(self)@,
    {
        if self.mag.len() > 0 {
            self.neg = !self.neg;
        }
    }

    /// Take the absolute value in place.
    pub fn abs_assign(&mut self)
        requires
            old(self).wf(),
        ensures
            final(self).wf(),
            final(self)@ == abs(old(self)@),
    {
        self.neg = false;
    }

    /// `self - other`.
    pub fn sub(&self, other: &Big) -> (r: Big)
        requires
            self.wf(),
            other.wf(),
        ensures
            r.wf(),
            r@ == self@ - other@,
    {
        Big::add_signed(self.neg, self.mag.as_slice(), !other.neg, other.mag.as_slice())
    }

    /// Add a signed magnitude in place, reusing the buffer.
    fn add_signed_assign(&mut self, other_neg: bool, other: &[u64])
        requires
            old(self).wf(),
            canonical(other@),
        ensures
            final(self).wf(),
            final(self)@ == old(self)@ + signed(other_neg, limbs_val(other@)),
    {
        if other.len() == 0 {
            return;
        }
        proof {
            lemma_canonical_lower(other@);
            self.lemma_parts();
        }
        if self.mag.len() == 0 {
            self.neg = other_neg;
            self.mag = slice_to_vec(other);
            return;
        }
        proof {
            lemma_canonical_lower(self.mag@);
        }
        if self.neg == other_neg {
            add_mag_inplace(&mut self.mag, other);
            proof {
                if self.mag@.len() == 0 {
                    assert(limbs_val(self.mag@) == 0);
                }
            }
        } else {
            match relate_mag(self.mag.as_slice(), other) {
                Relation::Equal => {
                    self.mag.clear();
                    self.neg = false;
                },
                Relation::Greater => {
                    sub_mag_inplace(&mut self.mag, other);
                },
                Relation::Less => {
                    rsub_mag_inplace(&mut self.mag, other);
                    self.neg = other_neg;
                },
            }
        }
    }

    /// `self += other`, in place.
    pub fn add_assign(&mut self, other: &Big)
        requires
            old(self).wf(),
            other.wf(),
        ensures
            final(self).wf(),
            final(self)@ == old(self)@ + other@,
    {
        self.add_signed_assign(other.neg, other.mag.as_slice());
    }

    /// `self -= other`, in place.
    pub fn sub_assign(&mut self, other: &Big)
        requires
            old(self).wf(),
            other.wf(),
        ensures
            final(self).wf(),
            final(self)@ == old(self)@ - other@,
    {
        self.add_signed_assign(!other.neg, other.mag.as_slice());
    }

    /// `self * other`.
    pub fn mul(&self, other: &Big) -> (r: Big)
        requires
            self.wf(),
            other.wf(),
        ensures
            r.wf(),
            r@ == self@ * other@,
    {
        let mag: Vec<u64> = mul_mag(self.mag.as_slice(), other.mag.as_slice());
        let mut r: Big = Big { neg: self.neg != other.neg, mag };
        proof {
            lemma_signed_mul(self.neg, limbs_val(self.mag@), other.neg, limbs_val(other.mag@));
        }
        r.normalize();
        r
    }

    /// `out = self * other`, reusing `out`'s buffer.
    pub fn mul_into(&self, other: &Big, out: &mut Big)
        requires
            self.wf(),
            other.wf(),
        ensures
            final(out).wf(),
            final(out)@ == self@ * other@,
    {
        mul_mag_into(self.mag.as_slice(), other.mag.as_slice(), &mut out.mag);
        out.neg = self.neg != other.neg;
        proof {
            lemma_signed_mul(self.neg, limbs_val(self.mag@), other.neg, limbs_val(other.mag@));
        }
        out.normalize();
    }

    /// Truncating division and remainder, or `None` for a zero divisor.
    pub fn divmod(&self, divisor: &Big) -> (r: Option<(Big, Big)>)
        requires
            self.wf(),
            divisor.wf(),
        ensures
            r is None <==> divisor@ == 0,
            r matches Some((q, m)) ==> {
                &&& q.wf()
                &&& m.wf()
                &&& q@ == quotient(self@, divisor@)
                &&& m@ == remainder(self@, divisor@)
            },
    {
        proof {
            self.lemma_parts();
            divisor.lemma_parts();
        }
        if divisor.mag.len() == 0 {
            return None;
        }
        let (qmag, rmag): (Vec<u64>, Vec<u64>) = divmod_mag(
            self.mag.as_slice(),
            divisor.mag.as_slice(),
        );
        let mut q: Big = Big { neg: self.neg != divisor.neg, mag: qmag };
        let mut m: Big = Big { neg: self.neg, mag: rmag };
        q.normalize();
        m.normalize();
        Some((q, m))
    }

    /// The quotient of the truncating division alone, or `None` for a zero divisor.
    pub fn div_exact(&self, divisor: &Big) -> (r: Option<Big>)
        requires
            self.wf(),
            divisor.wf(),
        ensures
            r is None <==> divisor@ == 0,
            r matches Some(q) ==> q.wf() && q@ == quotient(self@, divisor@),
    {
        proof {
            self.lemma_parts();
            divisor.lemma_parts();
        }
        if divisor.mag.len() == 0 {
            return None;
        }
        let (qmag, _rmag): (Vec<u64>, Vec<u64>) = divmod_mag_impl(
            self.mag.as_slice(),
            divisor.mag.as_slice(),
            false,
        );
        let mut q: Big = Big { neg: self.neg != divisor.neg, mag: qmag };
        q.normalize();
        Some(q)
    }

    /// `self /= divisor` in place, truncating toward zero. Returns `false`, leaving `self` unchanged,
    /// when the divisor is zero.
    pub fn div_exact_assign(&mut self, divisor: &Big) -> (done: bool)
        requires
            old(self).wf(),
            divisor.wf(),
        ensures
            final(self).wf(),
            done == (divisor@ != 0),
            final(self)@ == if done {
                quotient(old(self)@, divisor@)
            } else {
                old(self)@
            },
    {
        proof {
            self.lemma_parts();
            divisor.lemma_parts();
        }
        if divisor.mag.len() == 0 {
            return false;
        }
        let ghost v0 = limbs_val(self.mag@);
        let result_neg: bool = self.neg != divisor.neg;
        if divisor.mag.len() == 1 {
            let d: u64 = divisor.mag[0];
            proof {
                assert(divisor.mag@ =~= seq![d]);
                lemma_val_single(d);
            }
            let rem: u64 = div_rem_limb_inplace(&mut self.mag, d);
            proof {
                vstd::arithmetic::div_mod::lemma_fundamental_div_mod_converse(
                    v0 as int,
                    d as int,
                    limbs_val(self.mag@) as int,
                    rem as int,
                );
            }
        } else {
            let (qmag, _rmag): (Vec<u64>, Vec<u64>) = divmod_mag_impl(
                self.mag.as_slice(),
                divisor.mag.as_slice(),
                false,
            );
            self.mag = qmag;
        }
        self.neg = result_neg;
        self.normalize();
        true
    }

    /// The magnitude remainder by a word, or `None` for zero.
    pub fn rem_u64(&self, d: u64) -> (r: Option<u64>)
        requires
            self.wf(),
        ensures
            r is None <==> d == 0,
            r matches Some(m) ==> m == abs(self@) % (d as nat),
    {
        if d == 0 {
            return None;
        }
        Some(rem_by_limb(self.mag.as_slice(), d))
    }

    /// Truncating division by a word: the signed quotient and the magnitude remainder, or `None` for
    /// zero.
    pub fn divmod_u64(&self, d: u64) -> (r: Option<(Big, u64)>)
        requires
            self.wf(),
        ensures
            r is None <==> d == 0,
            r matches Some((q, m)) ==> {
                &&& q.wf()
                &&& q@ == quotient(self@, d as int)
                &&& m == abs(self@) % (d as nat)
            },
    {
        if d == 0 {
            return None;
        }
        proof {
            self.lemma_parts();
        }
        let mut qmag: Vec<u64> = slice_to_vec(self.mag.as_slice());
        let rem: u64 = div_rem_limb_inplace(&mut qmag, d);
        proof {
            vstd::arithmetic::div_mod::lemma_fundamental_div_mod_converse(
                limbs_val(self.mag@) as int,
                d as int,
                limbs_val(qmag@) as int,
                rem as int,
            );
        }
        let mut q: Big = Big { neg: self.neg, mag: qmag };
        q.normalize();
        Some((q, rem))
    }

    /// The greatest common divisor of the magnitudes, always non-negative.
    pub fn gcd(&self, other: &Big) -> (r: Big)
        requires
            self.wf(),
            other.wf(),
        ensures
            r.wf(),
            r@ == gcd(abs(self@), abs(other@)),
    {
        proof {
            self.lemma_parts();
            other.lemma_parts();
        }
        if self.mag.len() == 0 {
            proof {
                lemma_gcd_symmetric(0, abs(other@));
            }
            return other.abs();
        }
        if other.mag.len() == 0 {
            return self.abs();
        }
        // One Euclid step collapses a wide operand onto a single limb.
        if self.mag.len() == 1 || other.mag.len() == 1 {
            let (wide, small): (&Vec<u64>, u64) = if self.mag.len() == 1 {
                (&other.mag, self.mag[0])
            } else {
                (&self.mag, other.mag[0])
            };
            proof {
                if self.mag@.len() == 1 {
                    assert(self.mag@ =~= seq![small]);
                    lemma_gcd_symmetric(abs(self@), abs(other@));
                } else {
                    assert(other.mag@ =~= seq![small]);
                }
                lemma_val_single(small);
                lemma_canonical_lower(self.mag@);
                lemma_canonical_lower(other.mag@);
            }
            let r: u64 = rem_by_limb(wide.as_slice(), small);
            let g: u64 = gcd_u64(small, r);
            let mut mag: Vec<u64> = Vec::new();
            mag.push(g);
            proof {
                assert(mag@ =~= seq![g]);
                lemma_val_single(g);
            }
            return Big::from_limbs(false, mag);
        }
        let mut a: Vec<u64> = slice_to_vec(self.mag.as_slice());
        let b: Vec<u64> = slice_to_vec(other.mag.as_slice());
        binary_gcd(&mut a, b);
        Big { neg: false, mag: a }
    }

    /// `out = gcd(self, other)`, reusing `out`'s buffer.
    pub fn gcd_into(&self, other: &Big, out: &mut Big)
        requires
            self.wf(),
            other.wf(),
        ensures
            final(out).wf(),
            final(out)@ == gcd(abs(self@), abs(other@)),
    {
        proof {
            self.lemma_parts();
            other.lemma_parts();
        }
        out.neg = false;
        out.mag.clear();
        if self.mag.len() == 0 {
            proof {
                lemma_gcd_symmetric(0, abs(other@));
            }
            out.mag.extend_from_slice(other.mag.as_slice());
            assert(out.mag@ =~= other.mag@);
            return;
        }
        out.mag.extend_from_slice(self.mag.as_slice());
        assert(out.mag@ =~= self.mag@);
        if other.mag.len() == 0 {
            return;
        }
        let b: Vec<u64> = slice_to_vec(other.mag.as_slice());
        binary_gcd(&mut out.mag, b);
    }

    /// The decimal text of this value.
    pub fn to_decimal_string(&self) -> (s: String)
        requires
            self.wf(),
        ensures
            s@ == signed_decimal(self@),
    {
        let mut s: String = String::new();
        let _r: Result<(), SinkError> = self.write_decimal(&mut s);
        assert(Seq::<char>::empty() + signed_decimal(self@) =~= signed_decimal(self@));
        s
    }

    /// Write the decimal text of this value into a sink. When the sink refuses a piece, that is the
    /// last one, and the text written so far is a prefix of the rendering.
    pub fn write_decimal<W: TextSink>(&self, w: &mut W) -> (r: Result<(), SinkError>)
        requires
            self.wf(),
        ensures
            wrote(old(w).text(), final(w).text(), signed_decimal(self@), r is Ok),
            old(w).never_full() ==> r is Ok && final(w).never_full(),
            answered(old(w).refusals(), final(w).refusals(), final(w).refused(), r is Ok),
    {
        proof {
            self.lemma_parts();
            reveal_strlit("0");
            reveal_strlit("-");
        }
        if self.mag.len() == 0 {
            proof {
                assert("0"@ =~= decimal_digits(0));
            }
            return w.write_str("0");
        }
        if !self.neg {
            return write_decimal_mag(self.mag.as_slice(), w);
        }
        let ghost t0 = w.text();
        let ghost digits = decimal_digits(abs(self@));
        proof {
            assert("-"@ =~= seq!['-']);
        }
        let first: Result<(), SinkError> = w.write_str("-");
        if first.is_err() {
            proof {
                lemma_wrote_failed(t0, w.text(), seq!['-'], digits);
            }
            return first;
        }
        let ghost t1 = w.text();
        let second: Result<(), SinkError> = write_decimal_mag(self.mag.as_slice(), w);
        proof {
            lemma_wrote_then(t0, t1, w.text(), seq!['-'], digits, second is Ok);
        }
        second
    }

    /// Builds a non-negative value from base-`10^k` limbs, most significant first. `None` when `k` is
    /// not in `1..=19` or a limb is at least `10^k`.
    pub fn from_base_10_pow_k_limbs(k: u32, limbs: &[u64]) -> (r: Option<Big>)
        ensures
            r is Some <==> 1 <= k <= 19 && forall|i: int|
                0 <= i < limbs@.len() ==> limbs@[i] < crate::digits::pow10(k as nat),
            r matches Some(b) ==> b.wf() && b@ == chunks_value(limbs@, k as nat),
    {
        if k < 1 || k > 19 {
            return None;
        }
        let base: u64 = small_pow10(k);
        let mut mag: Vec<u64> = Vec::new();
        let mut i: usize = 0;
        proof {
            assert(limbs@.take(0).len() == 0);
        }
        while i < limbs.len()
            invariant
                1 <= k <= 19,
                base == crate::digits::pow10(k as nat),
                base >= 1,
                i <= limbs@.len(),
                canonical(mag@),
                limbs_val(mag@) == chunks_value(limbs@.take(i as int), k as nat),
                forall|j: int| 0 <= j < i ==> limbs@[j] < crate::digits::pow10(k as nat),
            decreases limbs@.len() - i,
        {
            let limb: u64 = limbs[i];
            if limb >= base {
                return None;
            }
            proof {
                let s = limbs@.take(i + 1);
                assert(s.drop_last() =~= limbs@.take(i as int));
                assert(s.last() == limb);
            }
            mul_add_u64_inplace(&mut mag, base, limb);
            i = i + 1;
        }
        proof {
            assert(limbs@.take(i as int) =~= limbs@);
        }
        Some(Big { neg: false, mag })
    }

    /// The value of a signed word.
    pub fn from_i64(v: i64) -> (r: Big)
        ensures
            r.wf(),
            r@ == v,
    {
        Big::from_i128(v as i128)
    }

    /// The value of a signed double word.
    pub fn from_i128(v: i128) -> (r: Big)
        ensures
            r.wf(),
            r@ == v,
    {
        let m: u128 = magnitude_of(v);
        let lo: u64 = limbs::lo64(m);
        let hi: u64 = limbs::hi64(m);
        let mut mag: Vec<u64> = Vec::new();
        mag.push(lo);
        mag.push(hi);
        proof {
            limbs::lemma_val_push(seq![lo], hi);
            lemma_val_single(lo);
            assert(mag@ =~= seq![lo].push(hi));
            reveal_with_fuel(bpow, 2);
            assert(bpow(1) * hi == 0x1_0000_0000_0000_0000 * hi);
        }
        Big::from_limbs(v < 0, mag)
    }

    /// Narrow to `i64`, or `None` when it does not fit.
    pub fn to_i64_checked(&self) -> (r: Option<i64>)
        requires
            self.wf(),
        ensures
            r is Some <==> i64::MIN <= self@ <= i64::MAX,
            r matches Some(v) ==> v == self@,
    {
        match self.to_i128_checked() {
            None => None,
            Some(v) => {
                if i64::MIN as i128 <= v && v <= i64::MAX as i128 {
                    Some(v as i64)
                } else {
                    None
                }
            },
        }
    }

    /// Narrow to `i128`, or `None` when it does not fit.
    pub fn to_i128_checked(&self) -> (r: Option<i128>)
        requires
            self.wf(),
        ensures
            r is Some <==> i128::MIN <= self@ <= i128::MAX,
            r matches Some(v) ==> v == self@,
    {
        let n: usize = self.mag.len();
        proof {
            self.lemma_parts();
            reveal_with_fuel(bpow, 3);
            reveal_with_fuel(limbs_val, 3);
            if n > 2 {
                lemma_canonical_lower(self.mag@);
                lemma_bpow_mono(2, (n - 1) as nat);
            }
        }
        if n > 2 {
            return None;
        }
        let lo: u128 = if n > 0 {
            self.mag[0] as u128
        } else {
            0
        };
        let hi: u128 = if n > 1 {
            self.mag[1] as u128
        } else {
            0
        };
        apply_sign(self.neg, lo + hi * 0x1_0000_0000_0000_0000)
    }

    /// Narrow a sign-magnitude byte encoding to `i64`. `None` when there are more than eight magnitude
    /// bytes or the value does not fit.
    pub fn i64_checked_from_sign_magnitude_bytes(bytes: &[u8]) -> (r: Option<i64>)
        ensures
            r is Some <==> bytes@.len() <= 9 && i64::MIN <= sign_magnitude_value(bytes@) <= i64::MAX,
            r matches Some(v) ==> v == sign_magnitude_value(bytes@),
    {
        if bytes.len() > 9 {
            return None;
        }
        match Big::i128_from_sign_magnitude_bytes(bytes) {
            None => {
                proof {
                    lemma_pow256_mono(if bytes@.len() == 0 { 0 } else { (bytes@.len() - 1) as nat }, 8);
                    lemma_bytes_bound(bytes@.skip(1));
                    lemma_pow256_values();
                }
                None
            },
            Some(v) => {
                if i64::MIN as i128 <= v && v <= i64::MAX as i128 {
                    Some(v as i64)
                } else {
                    None
                }
            },
        }
    }

    /// Read a sign-magnitude byte encoding as an `i128`. `None` when there are more than sixteen
    /// magnitude bytes or the value does not fit.
    pub fn i128_from_sign_magnitude_bytes(bytes: &[u8]) -> (r: Option<i128>)
        ensures
            r is Some <==> bytes@.len() <= 17 && i128::MIN <= sign_magnitude_value(bytes@)
                <= i128::MAX,
            r matches Some(v) ==> v == sign_magnitude_value(bytes@),
    {
        let n: usize = bytes.len();
        if n == 0 {
            return Some(0);
        }
        if n > 17 {
            return None;
        }
        let m: u128 = read_word(bytes, 1, n);
        proof {
            assert(bytes@.subrange(1, n as int) =~= bytes@.skip(1));
        }
        apply_sign(bytes[0] != 0, m)
    }

    /// Serialize an `i128` into `buf` in the sign-magnitude encoding, returning the length. `None`,
    /// leaving `buf` unchanged, when it does not fit.
    pub fn i128_to_sign_magnitude_bytes_into(v: i128, buf: &mut [u8]) -> (r: Option<usize>)
        ensures
            final(buf)@.len() == old(buf)@.len(),
            r is None <==> sign_magnitude(v as int).len() > old(buf)@.len(),
            r is None ==> final(buf)@ == old(buf)@,
            r matches Some(n) ==> {
                &&& n == sign_magnitude(v as int).len()
                &&& final(buf)@ == sign_magnitude(v as int) + old(buf)@.skip(n as int)
            },
    {
        let bytes: Vec<u8> = Big::from_i128(v).to_sign_magnitude_bytes();
        if bytes.len() > buf.len() {
            return None;
        }
        copy_prefix(buf, &bytes);
        Some(bytes.len())
    }

    /// Serialize to the canonical sign-magnitude byte encoding.
    pub fn to_sign_magnitude_bytes(&self) -> (out: Vec<u8>)
        requires
            self.wf(),
        ensures
            out@ == sign_magnitude(self@),
    {
        proof {
            self.lemma_parts();
        }
        let mut out: Vec<u8> = Vec::new();
        out.push(if self.neg {
            1
        } else {
            0
        });
        let mut bytes: Vec<u8> = magnitude_bytes(self.mag.as_slice());
        out.append(&mut bytes);
        assert(out@ =~= sign_magnitude(self@));
        out
    }

    /// Serialize into `buf` in the sign-magnitude encoding, returning the length. `None`, leaving
    /// `buf` unchanged, when it does not fit.
    pub fn to_sign_magnitude_bytes_into(&self, buf: &mut [u8]) -> (r: Option<usize>)
        requires
            self.wf(),
        ensures
            final(buf)@.len() == old(buf)@.len(),
            r is None <==> sign_magnitude(self@).len() > old(buf)@.len(),
            r is None ==> final(buf)@ == old(buf)@,
            r matches Some(n) ==> {
                &&& n == sign_magnitude(self@).len()
                &&& final(buf)@ == sign_magnitude(self@) + old(buf)@.skip(n as int)
            },
    {
        let bytes: Vec<u8> = self.to_sign_magnitude_bytes();
        if bytes.len() > buf.len() {
            return None;
        }
        copy_prefix(buf, &bytes);
        Some(bytes.len())
    }

    /// Parse a sign-magnitude byte encoding; the empty string is zero.
    pub fn from_sign_magnitude_bytes(bytes: &[u8]) -> (r: Big)
        ensures
            r.wf(),
            r@ == sign_magnitude_value(bytes@),
    {
        if bytes.len() == 0 {
            return Big::zero();
        }
        let mag: Vec<u64> = limbs_from_bytes(bytes, 1);
        Big::from_limbs(bytes[0] != 0, mag)
    }

    /// Serialize to minimal little-endian two's-complement bytes; zero is empty.
    pub fn to_le_twos_complement_bytes(&self) -> (out: Vec<u8>)
        requires
            self.wf(),
        ensures
            twos_value(out@) == self@,
            twos_minimal(out@),
    {
        proof {
            self.lemma_parts();
        }
        twos_bytes(self.neg, self.mag.as_slice())
    }

    /// Parse little-endian two's-complement bytes; the empty string is zero.
    pub fn from_le_twos_complement_bytes(bytes: &[u8]) -> (r: Big)
        ensures
            r.wf(),
            r@ == twos_value(bytes@),
    {
        let (neg, mag): (bool, Vec<u64>) = twos_magnitude(bytes);
        Big::from_limbs(neg, mag)
    }
}

/// One limb's contribution to the last decimal digit.
proof fn lemma_limb_mod10(x: int, v: int, h: int)
    requires
        x >= 0,
        v >= 0,
        (6 * v) % 10 == (6 * h) % 10,
    ensures
        (6 * (x + 0x1_0000_0000_0000_0000 * v)) % 10 == (6 * ((h + x % 10) % 10)) % 10,
{
    let k = (6 * v) / 10 - (6 * h) / 10;
    let c = (h + x % 10) / 10;
    let m = (h + x % 10) % 10;
    let t = 6 * (x / 10) + 0x9999_9999_9999_9996 * v + 3 * h + 6 * k + 6 * c;
    assert(6 * v == 6 * h + 10 * k);
    assert(h + x % 10 == 10 * c + m);
    assert(36 * v == 36 * h + 60 * k);
    assert(6 * (x + 0x1_0000_0000_0000_0000 * v) == 10 * t + 6 * m);
    vstd::arithmetic::div_mod::lemma_mod_multiples_vanish(t, 6 * m, 10);
}

/// A product's sign is the exclusive or of the operands' signs.
proof fn lemma_signed_mul(a_neg: bool, a: nat, b_neg: bool, b: nat)
    ensures
        signed(a_neg != b_neg, a * b) == signed(a_neg, a) * signed(b_neg, b),
{
    let x = a as int;
    let y = b as int;
    assert((-x) * y == -(x * y)) by (nonlinear_arith);
    assert(x * (-y) == -(x * y)) by (nonlinear_arith);
    assert((-x) * (-y) == x * y) by (nonlinear_arith);
}

/// The minimal byte count is the bit length rounded up to bytes.
pub proof fn lemma_byte_length(n: nat)
    ensures
        le_bytes(n).len() == (bit_length(n) + 7) / 8,
    decreases n,
{
    if n > 0 {
        lemma_byte_length(n / 256);
        reveal_with_fuel(bit_length, 9);
        assert(n / 2 / 2 / 2 / 2 / 2 / 2 / 2 / 2 == n / 256);
    }
}

/// `10^k` as a word.
fn small_pow10(k: u32) -> (r: u64)
    requires
        k <= 19,
    ensures
        r == crate::digits::pow10(k as nat),
        r >= 1,
{
    let mut r: u64 = 1;
    let mut i: u32 = 0;
    while i < k
        invariant
            i <= k <= 19,
            r == crate::digits::pow10(i as nat),
            r >= 1,
        decreases k - i,
    {
        proof {
            crate::digits::lemma_pow10_mono((i + 1) as nat, 19);
            crate::digits::lemma_pow10_values();
        }
        r = r * 10;
        i = i + 1;
    }
    r
}

/// The absolute value of a signed double word.
fn magnitude_of(v: i128) -> (m: u128)
    ensures
        m == abs(v as int),
{
    if v < 0 {
        (-(v + 1)) as u128 + 1
    } else {
        v as u128
    }
}

/// A signed double word from sign and magnitude, when it fits.
fn apply_sign(neg: bool, m: u128) -> (r: Option<i128>)
    ensures
        r is Some <==> i128::MIN <= signed(neg, m as nat) <= i128::MAX,
        r matches Some(v) ==> v == signed(neg, m as nat),
{
    let top: u128 = 0x8000_0000_0000_0000_0000_0000_0000_0000;
    if neg {
        if m < top {
            Some(-(m as i128))
        } else if m == top {
            Some(i128::MIN)
        } else {
            None
        }
    } else if m < top {
        Some(m as i128)
    } else {
        None
    }
}

/// Compare the magnitude bytes of two sign-magnitude strings.
fn relate_magnitude_bytes(a: &[u8], b: &[u8]) -> (r: Relation)
    ensures
        match r {
            Relation::Less => magnitude_order(magnitude_part(a@), magnitude_part(b@))
                == Ordering::Less,
            Relation::Equal => magnitude_order(magnitude_part(a@), magnitude_part(b@))
                == Ordering::Equal,
            Relation::Greater => magnitude_order(magnitude_part(a@), magnitude_part(b@))
                == Ordering::Greater,
        },
{
    let la: usize = if a.len() == 0 {
        0
    } else {
        a.len() - 1
    };
    let lb: usize = if b.len() == 0 {
        0
    } else {
        b.len() - 1
    };
    if la < lb {
        Relation::Less
    } else if la > lb {
        Relation::Greater
    } else if la == 0 {
        Relation::Equal
    } else {
        relate_bytes_from(a, b)
    }
}

/// Compare two byte strings of equal length by the value of what follows their first byte.
fn relate_bytes_from(a: &[u8], b: &[u8]) -> (r: Relation)
    requires
        a@.len() == b@.len(),
        a@.len() > 0,
    ensures
        r == relation_of(bytes_val(a@.skip(1)) as int, bytes_val(b@.skip(1)) as int),
{
    let n: usize = a.len();
    let mut i: usize = n;
    while i > 1
        invariant
            1 <= i <= n,
            n == a@.len() == b@.len(),
            a@.skip(i as int) =~= b@.skip(i as int),
        decreases i,
    {
        i = i - 1;
        if a[i] != b[i] {
            proof {
                let x = a@.skip(1);
                let y = b@.skip(1);
                let k = i - 1;
                codec::lemma_bytes_concat(x.take(k), x.skip(k));
                codec::lemma_bytes_concat(y.take(k), y.skip(k));
                assert(x =~= x.take(k) + x.skip(k));
                assert(y =~= y.take(k) + y.skip(k));
                assert(x.skip(k).drop_first() =~= a@.skip(i + 1));
                assert(y.skip(k).drop_first() =~= b@.skip(i + 1));
                lemma_bytes_bound(x.take(k));
                lemma_bytes_bound(y.take(k));
                let p = pow256(k as nat) as int;
                let la = bytes_val(x.take(k)) as int;
                let lb = bytes_val(y.take(k)) as int;
                let h = bytes_val(a@.skip(i + 1)) as int;
                let u = a@[i as int] as int;
                let v = b@[i as int] as int;
                assert(x.skip(k)[0] == u);
                assert(y.skip(k)[0] == v);
                assert(la + p * (u + 256 * h) - (lb + p * (v + 256 * h)) == la - lb + p * (u - v))
                    by (nonlinear_arith);
                assert(u < v ==> p * (u - v) <= -p) by (nonlinear_arith)
                    requires
                        p >= 0,
                ;
                assert(u > v ==> p * (u - v) >= p) by (nonlinear_arith)
                    requires
                        p >= 0,
                ;
            }
            return if a[i] < b[i] {
                Relation::Less
            } else {
                Relation::Greater
            };
        }
        proof {
            assert(a@.skip(i as int) =~= seq![a@[i as int]] + a@.skip(i + 1));
            assert(b@.skip(i as int) =~= seq![b@[i as int]] + b@.skip(i + 1));
        }
    }
    Relation::Equal
}

/// Overwrite the front of `buf`.
fn copy_prefix(buf: &mut [u8], src: &Vec<u8>)
    requires
        src@.len() <= old(buf)@.len(),
    ensures
        final(buf)@ == src@ + old(buf)@.skip(src@.len() as int),
{
    let mut i: usize = 0;
    while i < src.len()
        invariant
            i <= src@.len() <= buf@.len(),
            buf@.len() == old(buf)@.len(),
            forall|k: int| 0 <= k < i ==> buf@[k] == src@[k],
            forall|k: int| i <= k < buf@.len() ==> buf@[k] == old(buf)@[k],
        decreases src@.len() - i,
    {
        buf[i] = src[i];
        i = i + 1;
    }
    assert(buf@ =~= src@ + old(buf)@.skip(src@.len() as int));
}

impl Clone for Big {
    fn clone(&self) -> (r: Big)
        ensures
            r.same(self),
            r@ == self@,
            self.wf() ==> r.wf(),
    {
        Big { neg: self.neg, mag: slice_to_vec(self.mag.as_slice()) }
    }
}

impl PartialEqSpecImpl for Big {
    open spec fn obeys_eq_spec() -> bool {
        true
    }

    open spec fn eq_spec(&self, other: &Big) -> bool {
        self.same(other)
    }
}

impl PartialEq for Big {
    fn eq(&self, other: &Big) -> (r: bool)
        ensures
            self.wf() && other.wf() ==> (r <==> self@ == other@),
    {
        proof {
            if self.wf() && other.wf() {
                laws::law_unique_form(self, other);
            }
        }
        if self.neg != other.neg || self.mag.len() != other.mag.len() {
            return false;
        }
        let mut i: usize = 0;
        while i < self.mag.len()
            invariant
                self.mag@.len() == other.mag@.len(),
                i <= self.mag@.len(),
                forall|k: int| 0 <= k < i ==> self.mag@[k] == other.mag@[k],
                self.wf() && other.wf() ==> (self.same(other) <==> self@ == other@),
            decreases self.mag@.len() - i,
        {
            if self.mag[i] != other.mag[i] {
                return false;
            }
            i = i + 1;
        }
        assert(self.mag@ =~= other.mag@);
        true
    }
}

impl Eq for Big {

}

} // verus!
