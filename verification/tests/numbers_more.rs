//! Laws and edge cases of integers and decimals on concrete values.

use core::cmp::Ordering;
use core::str::FromStr;

use etude::bigint::addsub::Relation;
use etude::bigint::Big;
use etude::decimal::{Decimal, ParseDecimalError};
use etude::text::{ascii_str, SinkError, TextSink};

/// Takes a number of bytes and refuses any text that would go beyond it.
struct Tight {
    taken: String,
    room: usize,
    full: bool,
}

impl Tight {
    fn new(room: usize) -> Self {
        Tight { taken: String::new(), room, full: false }
    }
}

impl TextSink for Tight {
    fn text(&self) -> vstd::seq::Seq<char> {
        unreachable!()
    }
    fn never_full(&self) -> bool {
        false
    }
    fn refusals(&self) -> vstd::prelude::nat {
        unreachable!()
    }
    fn refused(&self) -> bool {
        unreachable!()
    }
    fn write_str(&mut self, s: &str) -> Result<(), SinkError> {
        assert!(!self.full, "nothing is written after a refusal");
        if self.taken.len() + s.len() > self.room {
            self.full = true;
            return Err(SinkError);
        }
        self.taken.push_str(s);
        Ok(())
    }
}

fn decimal(s: &str) -> Decimal {
    Decimal::from_str(s).unwrap()
}

/// `10^n`.
fn power(n: u32) -> Big {
    let mut value = Big::from_i64(1);
    for _ in 0..n {
        value = value.mul(&Big::from_i64(10));
    }
    value
}

#[test]
fn equal_values_have_equal_limbs() {
    let padded = Big::from_limbs(false, vec![7, 0, 0]);
    assert_eq!(padded.limbs(), Big::from_i64(7).limbs());
    let zero = Big::from_limbs(true, vec![0, 0]);
    assert!(zero.is_zero());
    assert!(!zero.is_negative());
    assert_eq!(zero.limbs(), Big::zero().limbs());
}

#[test]
fn division_truncates() {
    for (a, b, q, m) in [
        (7, 2, 3, 1),
        (-7, 2, -3, -1),
        (7, -2, -3, 1),
        (-7, -2, 3, -1),
        (1, 5, 0, 1),
        (0, 5, 0, 0),
    ] {
        let (quotient, rest) = Big::from_i64(a).divmod(&Big::from_i64(b)).unwrap();
        assert_eq!(quotient.to_i64_checked(), Some(q));
        assert_eq!(rest.to_i64_checked(), Some(m));
        let back = quotient.mul(&Big::from_i64(b)).add(&rest);
        assert_eq!(back.to_i64_checked(), Some(a));
    }
    assert!(Big::from_i64(7).divmod(&Big::zero()).is_none());
    assert!(Big::from_i64(7).div_exact(&Big::zero()).is_none());
    assert_eq!(Big::from_i64(7).rem_u64(0), None);
    assert!(Big::from_i64(7).divmod_u64(0).is_none());
}

#[test]
fn integers_relate() {
    let low = power(40).neg();
    let high = power(39);
    assert_eq!(low.relate(&high), Relation::Less);
    assert_eq!(high.relate(&low), Relation::Greater);
    assert_eq!(low.relate(&power(40).neg()), Relation::Equal);
    assert_eq!(low.cmp(&high), Ordering::Less);
}

#[test]
fn encoding_into_a_buffer() {
    let value = power(20).neg();
    let encoded = value.to_sign_magnitude_bytes();
    let mut buf = vec![0xaa; encoded.len() + 2];
    assert_eq!(value.to_sign_magnitude_bytes_into(&mut buf), Some(encoded.len()));
    assert_eq!(&buf[..encoded.len()], &encoded[..]);
    assert_eq!(&buf[encoded.len()..], &[0xaa, 0xaa]);
    let mut exact = vec![0xaa; encoded.len()];
    assert_eq!(value.to_sign_magnitude_bytes_into(&mut exact), Some(encoded.len()));
    assert_eq!(exact, encoded);
    let mut short = vec![0xaa; encoded.len() - 1];
    assert_eq!(value.to_sign_magnitude_bytes_into(&mut short), None);
    assert!(short.iter().all(|&byte| byte == 0xaa));
    let mut two = [0xaa; 2];
    assert_eq!(Big::from_i64(5).to_sign_magnitude_bytes_into(&mut two), Some(2));
    assert_eq!(two, [0, 5]);
    assert_eq!(Big::zero().to_sign_magnitude_bytes_into(&mut two[..1]), Some(1));
    assert_eq!(two, [0, 5]);
    assert_eq!(Big::zero().to_sign_magnitude_bytes_into(&mut []), None);
    let back = Big::from_sign_magnitude_bytes(&encoded);
    assert_eq!(back.relate(&value), Relation::Equal);
}

#[test]
fn encodings_order_as_the_numbers() {
    let values = [power(30).neg(), Big::from_i64(-256), Big::from_i64(-1), Big::zero(),
        Big::from_i64(1), Big::from_i64(255), power(30)];
    for a in &values {
        for b in &values {
            let x = a.to_sign_magnitude_bytes();
            let y = b.to_sign_magnitude_bytes();
            assert_eq!(Big::cmp_sign_magnitude_bytes(&x, &y), a.cmp(b));
            assert_eq!(x == y, a.relate(b) == Relation::Equal);
        }
    }
}

#[test]
fn a_full_sink_stops_the_rendering() {
    let value = power(60).neg();
    let text = value.to_decimal_string();
    assert_eq!(text, format!("-1{}", "0".repeat(60)));
    for room in 0..text.len() {
        let mut sink = Tight::new(room);
        assert_eq!(value.write_decimal(&mut sink), Err(SinkError));
        assert!(text.starts_with(&sink.taken));
    }
    // a wide value goes through many writes
    let wide = power(3000);
    for room in [0, 1, 500, 3000] {
        let mut sink = Tight::new(room);
        assert_eq!(wide.write_decimal(&mut sink), Err(SinkError));
        assert!(sink.full);
    }
    let mut sink = Tight::new(text.len());
    assert_eq!(value.write_decimal(&mut sink), Ok(()));
    assert_eq!(sink.taken, text);

    for number in ["-12.5", "0.001", "1e1000", "123000"] {
        let number = decimal(number);
        let text = number.to_string();
        for room in 0..text.len() {
            let mut sink = Tight::new(room);
            assert_eq!(number.write_to(&mut sink), Err(SinkError));
            assert!(text.starts_with(&sink.taken));
        }
    }
}

#[test]
fn decimals_from_integers() {
    let d = Decimal::from_bigint(Big::from_i64(-1200));
    assert_eq!(d.coefficient().to_i64_checked(), Some(-12));
    assert_eq!(d.exponent(), 2);
    assert_eq!(d.to_string(), "-1200");
    let zero = Decimal::from_bigint(Big::zero());
    assert!(zero.is_zero());
    assert_eq!(zero.exponent(), 0);
    assert_eq!(decimal("-1.2e3").relate(&d), Relation::Equal);
}

#[test]
fn decimals_relate_at_any_scale() {
    assert_eq!(decimal("1e3").relate(&decimal("999.9")), Relation::Greater);
    assert_eq!(decimal("-1e3").relate(&decimal("-999.9")), Relation::Less);
    assert_eq!(decimal("10").relate(&decimal("1e1")), Relation::Equal);
    assert_eq!(decimal("0").relate(&decimal("1e-900")), Relation::Less);
}

#[test]
fn adding_then_subtracting_restores() {
    for a in ["0", "1.25", "-7e20", "3e-9"] {
        for b in ["0", "-0.5", "9e18", "1e-30"] {
            let (a, b) = (decimal(a), decimal(b));
            assert!(a.add(&b).sub(&b) == a);
            assert!(a.mul(&Decimal::one()) == a);
        }
    }
}

#[test]
fn exponents_of_products_saturate() {
    let huge = Decimal::new(Big::from_i64(3), i64::MAX);
    let product = huge.mul(&huge);
    assert_eq!(product.coefficient().to_i64_checked(), Some(9));
    assert_eq!(product.exponent(), i64::MAX);
    let tiny = Decimal::new(Big::from_i64(3), i64::MIN);
    assert_eq!(tiny.mul(&tiny).exponent(), i64::MIN);
}

#[test]
fn rendering_parses_back() {
    for s in ["0", "-0.001", "12000", "5e40", "-5e-40", "1.0000000001"] {
        let d = decimal(s);
        assert!(Decimal::from_ascii(d.to_string().as_bytes()).unwrap() == d);
    }
}

#[test]
fn parse_failures() {
    for s in ["", "-", "01", "1.", ".5", "1e", "1e+", "+1", "1e1234567890123456789", "1 "] {
        assert_eq!(Decimal::from_str(s).err(), Some(ParseDecimalError));
        assert!(Decimal::from_ascii(s.as_bytes()).is_none());
    }
    assert_eq!(
        ParseDecimalError.to_string(),
        "invalid decimal (not a well-formed JSON number)"
    );
    assert!(Decimal::from_components(false, b"12x", 0).is_none());
    assert!(Decimal::from_parts(false, b"1", b"5", i64::MIN).is_none());
}

#[test]
fn ascii_text() {
    assert_eq!(ascii_str(b"3.25e7"), "3.25e7");
    assert_eq!(ascii_str(b""), "");
}
