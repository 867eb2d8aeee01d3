//! Parsing, comparing, rendering and computing with decimals, held against `bigdecimal`.

use core::cmp::Ordering::{Equal, Greater, Less};
use std::str::FromStr;

use bigdecimal::BigDecimal;
use etude::decimal::Decimal;
use etude::text::{SinkError, TextSink};

/// The canonical `(is_negative, magnitude-digits, exponent)` triple of one of OUR values.
fn our_parts(d: &Decimal) -> (bool, String, i64) {
    (
        d.is_negative(),
        d.coefficient().abs().to_decimal_string(),
        d.exponent(),
    )
}

/// The same triple for the REFERENCE, from its normalized (trailing-zeros-stripped) form. `bigdecimal`'s
/// `normalized()` also removes trailing zeros, so a matching triple means both the value AND our
/// canonical-form invariant agree with the reference.
fn ref_parts(b: &BigDecimal) -> (bool, String, i64) {
    let bn = b.normalized();
    let (int_val, scale) = bn.as_bigint_and_exponent();
    let neg = matches!(int_val.sign(), num_bigint::Sign::Minus);
    let mag = int_val.magnitude().to_str_radix(10);
    (neg, mag, -scale)
}

/// Assert our value and the reference denote the same exact number (and that both are canonical).
fn assert_same(d: &Decimal, b: &BigDecimal) {
    let ours = our_parts(d);
    let refs = ref_parts(b);
    // Any two zeros are equal regardless of how the reference reports a zero's exponent.
    if ours.1 == "0" && refs.1 == "0" {
        return;
    }
    assert_eq!(ours, refs, "value mismatch: ours={d:?} ref={b}");
}

#[test]
fn canonicalizes_trailing_zeros() {
    // 1.0 == 1 == 1.00 -> coeff 1, exp 0; 100 -> coeff 1, exp 2; 0.10 -> coeff 1, exp -1.
    assert_eq!(
        Decimal::from_str("1.0").unwrap(),
        Decimal::from_str("1").unwrap()
    );
    assert_eq!(
        Decimal::from_str("1.00").unwrap(),
        Decimal::from_str("1").unwrap()
    );
    assert_eq!(
        Decimal::from_str("0.10").unwrap(),
        Decimal::from_str("0.1").unwrap()
    );
    let hundred = Decimal::from_str("100").unwrap();
    assert_eq!(hundred.coefficient().to_decimal_string(), "1");
    assert_eq!(hundred.exponent(), 2);
    assert_eq!(hundred.to_string(), "100");
    // 1e-1 == 0.1.
    assert_eq!(
        Decimal::from_str("1e-1").unwrap(),
        Decimal::from_str("0.1").unwrap()
    );
    // A zero is always the one canonical zero regardless of scale/exponent/sign.
    for s in ["0", "0.0", "0.000", "0e5", "-0", "-0.0", "0E-3"] {
        let z = Decimal::from_str(s).unwrap();
        assert!(z.is_zero(), "{s} should be zero");
        assert_eq!(z, Decimal::zero());
        assert_eq!(z.to_string(), "0");
    }
}

#[test]
fn parses_exact_large_values() {
    // A 30-digit integer round-trips with no loss (well beyond i64/f64).
    let s = "123456789012345678901234567890";
    let d = Decimal::from_str(s).unwrap();
    assert_eq!(d.to_string(), s);
    assert!(d.is_integer());
    // A long fractional literal keeps every significant digit.
    let f = "0.123456789012345678901234567891";
    assert_eq!(Decimal::from_str(f).unwrap().to_string(), f);
    // A trailing zero in the fraction is not significant: it is stripped by canonicalization.
    assert_eq!(Decimal::from_str("0.1230").unwrap().to_string(), "0.123");
    // Exponent shifts: 1.5e3 = 1500, 15e-1 = 1.5.
    assert_eq!(Decimal::from_str("1.5e3").unwrap().to_string(), "1500");
    assert_eq!(Decimal::from_str("15e-1").unwrap().to_string(), "1.5");
    assert_eq!(Decimal::from_str("1.5E+3").unwrap().to_string(), "1500");
}

#[test]
fn rejects_malformed() {
    for bad in [
        "", "-", "+", "+1", "01", "00", "1.", ".5", "1..2", "1.2.3", "1e", "1e+", "1e-", "e5",
        "1.e5", "1.5e", "abc", "0x1", " 1", "1 ", "1,000", "--1", "1-", "Infinity", "NaN", ".",
        "1.2e3.4", "0..1", "+0",
    ] {
        assert!(
            Decimal::from_ascii(bad.as_bytes()).is_none(),
            "{bad:?} must be rejected"
        );
    }
    // Leading zero is only allowed as a bare "0" (optionally with a fraction/exponent).
    assert!(Decimal::from_str("0.5").is_ok());
    assert!(Decimal::from_str("0e3").is_ok());
    assert!(Decimal::from_str("07").is_err());
}

#[test]
fn from_parts_and_components() {
    // Component construction matches the equivalent literal parse (the decoder path == the string path).
    // value = (-1)^neg * (int ++ frac) * 10^(exp - frac.len())
    assert_eq!(
        Decimal::from_parts(false, b"1", b"5", 0).unwrap(),
        Decimal::from_str("1.5").unwrap()
    );
    assert_eq!(
        Decimal::from_parts(true, b"3", b"14", 0).unwrap(),
        Decimal::from_str("-3.14").unwrap()
    );
    // Explicit exponent folds with the fractional shift: 1.5e3 = 1500, and 15 with exp -1 = 1.5.
    assert_eq!(
        Decimal::from_parts(false, b"1", b"5", 3).unwrap(),
        Decimal::from_str("1500").unwrap()
    );
    assert_eq!(
        Decimal::from_parts(false, b"15", b"", -1).unwrap(),
        Decimal::from_str("1.5").unwrap()
    );
    // Empty coefficient is zero; sign on zero is dropped (canonical).
    assert_eq!(
        Decimal::from_parts(true, b"", b"", 5).unwrap(),
        Decimal::zero()
    );
    assert_eq!(
        Decimal::from_parts(true, b"0", b"", 0).unwrap(),
        Decimal::zero()
    );
    // from_components: (-1)^neg * digits * 10^exp (no fractional part).
    assert_eq!(
        Decimal::from_components(false, b"123", 4).unwrap(),
        Decimal::from_str("123e4").unwrap()
    );
    assert_eq!(
        Decimal::from_components(true, b"7", 0).unwrap(),
        Decimal::from_str("-7").unwrap()
    );
    // A big coefficient survives exactly.
    assert_eq!(
        Decimal::from_components(false, b"123456789012345678901234567890", 0)
            .unwrap()
            .to_string(),
        "123456789012345678901234567890"
    );
    // Non-digit bytes are rejected (defensive — the caller is expected to pass validated digits).
    assert!(Decimal::from_parts(false, b"1a", b"", 0).is_none());
    assert!(Decimal::from_parts(false, b"1", b"2.3", 0).is_none());
    assert!(Decimal::from_components(false, b"-5", 0).is_none()); // sign belongs in the flag, not digits
}

#[test]
fn comparison_is_exact() {
    let d = |s: &str| Decimal::from_str(s).unwrap();
    // The canonical Float pitfall: 0.1 < 0.2 exactly.
    assert_eq!(d("0.1").cmp(&d("0.2")), Less);
    // Different scale, same value.
    assert_eq!(d("1.10").cmp(&d("1.1")), Equal);
    assert_eq!(d("100").cmp(&d("1e2")), Equal);
    assert_eq!(d("0.5").cmp(&d("5e-1")), Equal);
    // Order of magnitude decides (adjusted-exponent fast path).
    assert_eq!(d("9.9").cmp(&d("10")), Less);
    assert_eq!(d("10").cmp(&d("9.9")), Greater);
    assert_eq!(d("1000").cmp(&d("999.9")), Greater);
    // Equal adjusted exponent, decided on aligned digits.
    assert_eq!(d("1.5").cmp(&d("1.49")), Greater);
    assert_eq!(d("1.49").cmp(&d("1.5")), Less);
    // Sign handling.
    assert_eq!(d("-0.1").cmp(&d("0")), Less);
    assert_eq!(d("-0.1").cmp(&d("0.1")), Less);
    assert_eq!(d("-2").cmp(&d("-1")), Less); // -2 < -1 (magnitude reversed)
    assert_eq!(d("-1.5").cmp(&d("-1.49")), Less);
    assert_eq!(d("0").cmp(&d("0")), Equal);
    // Ord/PartialOrd delegate to cmp.
    assert!(d("0.1") < d("0.2"));
    assert!(d("-1") <= d("-1"));
}

#[test]
fn predicates_and_sign() {
    assert!(Decimal::from_str("42").unwrap().is_integer());
    assert!(Decimal::from_str("1e3").unwrap().is_integer());
    assert!(!Decimal::from_str("1.5").unwrap().is_integer());
    assert!(Decimal::zero().is_integer());
    assert!(Decimal::from_str("-3.5").unwrap().is_negative());
    assert!(!Decimal::from_str("3.5").unwrap().is_negative());
    assert!(!Decimal::zero().is_negative());
    assert_eq!(Decimal::from_str("3.5").unwrap().neg().to_string(), "-3.5");
    assert_eq!(Decimal::from_str("-3.5").unwrap().abs().to_string(), "3.5");
    assert_eq!(Decimal::from_str("3.5").unwrap().abs().to_string(), "3.5");
    assert_eq!(Decimal::zero().neg(), Decimal::zero());
}

#[test]
fn scientific_render_round_trips_large_exponents() {
    // Large positive/negative exponents fall back to a compact scientific form that re-parses exactly.
    let big = Decimal::from_str("1e1000").unwrap();
    assert_eq!(big.to_string(), "1e1000");
    assert_eq!(Decimal::from_str(&big.to_string()).unwrap(), big);
    let small = Decimal::from_str("1e-1000").unwrap();
    assert_eq!(small.to_string(), "1e-1000");
    assert_eq!(Decimal::from_str(&small.to_string()).unwrap(), small);
}

#[test]
fn exact_arithmetic() {
    let d = |s: &str| Decimal::from_str(s).unwrap();
    // The Float pitfall done exactly: 0.1 + 0.2 = 0.3.
    assert_eq!(d("0.1").add(&d("0.2")).to_string(), "0.3");
    // Different scales align (smaller exponent wins).
    assert_eq!(d("1.5").add(&d("2.25")).to_string(), "3.75");
    assert_eq!(d("100").add(&d("0.001")).to_string(), "100.001");
    // Subtraction: cancellation to canonical zero, and crossing zero.
    assert_eq!(d("1.5").sub(&d("1.5")), Decimal::zero());
    assert_eq!(d("0.3").sub(&d("0.1")).to_string(), "0.2");
    assert_eq!(d("1").sub(&d("0.9")).to_string(), "0.1");
    assert_eq!(d("0.1").sub(&d("0.3")).to_string(), "-0.2");
    // Multiplication: exponents add, coefficients multiply, result re-canonicalizes trailing zeros.
    assert_eq!(d("1.5").mul(&d("2")).to_string(), "3"); // 3.0 -> 3
    assert_eq!(d("0.1").mul(&d("0.1")).to_string(), "0.01");
    assert_eq!(d("12").mul(&d("12")).to_string(), "144");
    assert_eq!(d("2.5").mul(&d("4")).to_string(), "10"); // 10.0 -> 10
    assert_eq!(d("-1.5").mul(&d("2")).to_string(), "-3");
    assert_eq!(d("-1.5").mul(&d("-2")).to_string(), "3");
    // Identities with zero.
    assert_eq!(d("1.23").mul(&Decimal::zero()), Decimal::zero());
    assert_eq!(d("3.14").add(&Decimal::zero()).to_string(), "3.14");
    assert_eq!(Decimal::zero().sub(&d("3.14")).to_string(), "-3.14");
    // Exact well beyond f64/i64 range.
    let big = d("123456789012345678901234567890");
    assert_eq!(
        big.add(&d("1")).to_string(),
        "123456789012345678901234567891"
    );
    assert_eq!(
        big.mul(&d("10")).to_string(),
        "1234567890123456789012345678900"
    );
}

#[test]
fn write_to_renders_into_a_stack_sink() {
    // A sink of fixed capacity without a heap: `write_to` renders into it what `to_string` returns.
    struct StackSink {
        buf: [u8; 128],
        len: usize,
    }
    impl TextSink for StackSink {
        fn text(&self) -> vstd::seq::Seq<char> {
            unreachable!()
        }
        fn never_full(&self) -> bool {
            false
        }
        fn refusals(&self) -> vstd::prelude::nat {
            unreachable!()
        }
        fn refused(&self) -> bool {
            unreachable!()
        }
        fn write_str(&mut self, s: &str) -> Result<(), SinkError> {
            let b = s.as_bytes();
            let end = self.len + b.len();
            if end > self.buf.len() {
                return Err(SinkError);
            }
            self.buf[self.len..end].copy_from_slice(b);
            self.len = end;
            Ok(())
        }
    }

    for s in [
        "0", "1", "-1", "100", "0.1", "1.5", "-3.14", "0.001", "123.456", "1e1000", "1e-1000",
    ] {
        let d = Decimal::from_str(s).unwrap();
        let mut sink = StackSink {
            buf: [0; 128],
            len: 0,
        };
        d.write_to(&mut sink).unwrap();
        let rendered = core::str::from_utf8(&sink.buf[..sink.len]).unwrap();
        assert_eq!(
            rendered,
            d.to_string(),
            "write_to vs to_string mismatch for {s}"
        );
    }
}

/// The decimal-literal character set. Random strings over it hit valid numbers, near-misses (leading
/// zeros, stray dots/signs), and pure garbage — exercising both the acceptance and the rejection paths.
const CHARSET: &[u8] = b"0123456789.-+eE";

fn map_to_charset(raw: &[u8]) -> String {
    // Cap the length so a pathological candidate can't build a giant coefficient string.
    let mut s = String::with_capacity(raw.len().min(48));
    for &b in raw.iter().take(48) {
        s.push(CHARSET[(b as usize) % CHARSET.len()] as char);
    }
    s
}

/// Parse `s` with both implementations and, when we accept it, assert the reference agrees on the value
/// and that our rendering round-trips. Returns the parsed pair when both accept, for downstream cmp.
fn check_parse(s: &str) -> Option<(Decimal, BigDecimal)> {
    let ours = Decimal::from_ascii(s.as_bytes());
    let refs = BigDecimal::from_str(s).ok();
    match (ours, refs) {
        (Some(d), Some(b)) => {
            assert_same(&d, &b);
            // Round-trip: our own output re-parses to the same value in both implementations.
            let rendered = d.to_string();
            let reparsed = Decimal::from_ascii(rendered.as_bytes())
                .unwrap_or_else(|| panic!("our output {rendered:?} must re-parse (from {s:?})"));
            assert_eq!(
                d, reparsed,
                "round-trip changed value: {s:?} -> {rendered:?}"
            );
            let ref_reparsed = BigDecimal::from_str(&rendered)
                .unwrap_or_else(|_| panic!("bigdecimal must parse our output {rendered:?}"));
            assert_same(&d, &ref_reparsed);
            Some((d, b))
        }
        (Some(d), None) => {
            // We accept a strict decimal literal; the lenient reference should accept a superset. If this
            // ever fires, our acceptance diverged from a real decimal — surface it.
            panic!("we accepted {s:?} as {d:?} but bigdecimal rejected it");
        }
        // We reject (stricter than / same as the reference), or both reject — nothing to compare.
        (None, _) => None,
    }
}

/// A small deterministic generator.
struct Rng(u64);

impl Rng {
    fn next(&mut self) -> u64 {
        let mut x = self.0;
        x ^= x << 13;
        x ^= x >> 7;
        x ^= x << 17;
        self.0 = x;
        x
    }

    fn flag(&mut self) -> bool {
        (self.next() >> 20) & 1 == 1
    }
}

#[test]
fn differential_parse_and_cmp() {
    let mut rng = Rng(0xdec1_0a11_5eed_0001);
    for _ in 0..400 {
        let mut parsed: Vec<(Decimal, BigDecimal)> = Vec::new();
        for _ in 0..16 {
            let len = (rng.next() % 12) as usize;
            let raw: Vec<u8> = (0..len).map(|_| (rng.next() >> 16) as u8).collect();
            let s = map_to_charset(&raw);
            // An exponent of many digits is left to the structured numbers.
            let digits = s.find(['e', 'E']).map_or(0, |at| s.len() - at);
            if digits > 5 {
                continue;
            }
            if let Some(pair) = check_parse(&s) {
                parsed.push(pair);
            }
        }
        // Every ordered pair must agree in comparison sign with the reference.
        for (da, ba) in &parsed {
            for (db, bb) in &parsed {
                assert_eq!(da.cmp(db), ba.cmp(bb), "cmp mismatch: {da:?} ? {db:?}");
            }
        }
    }
}

/// Build a guaranteed-valid decimal literal string from typed components. `int` (a `u64`) has no leading
/// zero by construction; `frac`/`exp` are appended only when present.
fn make_num(neg: bool, int: u64, frac: Option<u32>, exp: Option<i64>) -> String {
    let mut s = String::new();
    if neg {
        s.push('-');
    }
    s.push_str(&int.to_string());
    if let Some(f) = frac {
        s.push('.');
        s.push_str(&f.to_string());
    }
    if let Some(e) = exp {
        s.push('e');
        s.push_str(&e.to_string()); // Display carries its own sign
    }
    s
}

#[test]
fn differential_structured_numbers() {
    // Valid decimal literals built from typed fields, for dense cmp/round-trip coverage across
    // sign, integer, fractional, and exponent components.
    let mut rng = Rng(0x57c7_0000_dec1_0003);
    for _ in 0..150 {
        let mut parsed: Vec<(Decimal, BigDecimal)> = Vec::new();
        for _ in 0..8 {
            let neg = rng.flag();
            let wide = rng.next() % 64;
            let int = rng.next() >> wide;
            let frac = (rng.next() >> 32) as u32;
            let has_frac = rng.flag();
            let exp = (rng.next() >> 40) as i16;
            let has_exp = rng.flag();
            let s = make_num(
                neg,
                int,
                has_frac.then_some(frac),
                has_exp.then_some(exp as i64),
            );
            if let Some(pair) = check_parse(&s) {
                // The component path (what a decoder feeds) must match the string parse exactly:
                // from_parts(neg, int_digits, frac_digits, raw eE exp).
                let int_s = int.to_string();
                let frac_s = frac.to_string();
                let frac_bytes: &[u8] = if has_frac { frac_s.as_bytes() } else { b"" };
                let raw_exp = if has_exp { exp as i64 } else { 0 };
                let via_parts = Decimal::from_parts(neg, int_s.as_bytes(), frac_bytes, raw_exp)
                    .expect("valid components");
                assert_eq!(via_parts, pair.0, "from_parts != from_ascii for {s}");
                parsed.push(pair);
            }
        }
        for (da, ba) in &parsed {
            for (db, bb) in &parsed {
                assert_eq!(da.cmp(db), ba.cmp(bb), "cmp mismatch: {da:?} ? {db:?}");
            }
        }
    }
}

/// Apply one arithmetic op over a small register file, in lockstep with the reference, asserting the
/// results agree exactly. Binary ops read registers `i`,`j`; the unary negate reads `i`.
fn apply_op(
    code: u8,
    i: usize,
    j: usize,
    ours: &mut Vec<Decimal>,
    refs: &mut Vec<BigDecimal>,
) {
    let a = ours[i].clone();
    let b = ours[j].clone();
    let ra = refs[i].clone();
    let rb = refs[j].clone();
    let (r, rr) = match code % 4 {
        0 => (a.add(&b), &ra + &rb),
        1 => (a.sub(&b), &ra - &rb),
        2 => (a.mul(&b), &ra * &rb),
        _ => (a.neg(), -ra),
    };
    assert_same(&r, &rr);
    // Bound register growth so a long op sequence stays O(cap) in memory.
    if ours.len() < 64 {
        ours.push(r);
        refs.push(rr);
    } else {
        ours[i] = r;
        refs[i] = rr;
    }
}

#[test]
fn differential_arithmetic() {
    // Seeds are valid decimal literals (exponent bounded to i8 so that exponent-alignment scaling
    // stays modest); ops are (opcode, reg_a, reg_b) triples. add/sub/mul are all exact in bigdecimal
    // too, so the results must agree exactly after every operation.
    let mut rng = Rng(0xa417_0000_0000_0007);
    for _ in 0..60 {
        let mut ours: Vec<Decimal> = Vec::new();
        let mut refs: Vec<BigDecimal> = Vec::new();
        // Always keep at least one register so indexing never divides by zero.
        ours.push(Decimal::zero());
        refs.push(BigDecimal::from_str("0").unwrap());
        for _ in 0..8 {
            let neg = rng.flag();
            let int = rng.next() >> (rng.0 % 64);
            let frac = (rng.next() >> 32) as u32;
            let has_frac = rng.flag();
            let exp = (rng.next() >> 40) as i8;
            let has_exp = rng.flag();
            let s = make_num(
                neg,
                int,
                has_frac.then_some(frac),
                has_exp.then_some(exp as i64),
            );
            if let Some(pair) = check_parse(&s) {
                ours.push(pair.0);
                refs.push(pair.1);
            }
        }
        for _ in 0..20 {
            let len = ours.len();
            let code = (rng.next() >> 8) as u8;
            let i = (rng.next() >> 8) as usize % len;
            let j = (rng.next() >> 8) as usize % len;
            apply_op(code, i, j, &mut ours, &mut refs);
        }
    }
}
