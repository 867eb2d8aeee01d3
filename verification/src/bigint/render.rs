//! Base conversion: decimal rendering of magnitudes and the decimal digit count.
use super::addsub::{relate_mag, Relation};
use super::div::{div_rem_limb_inplace, divmod_mag};
use super::limbs::{
    bpow, canonical, lemma_canonical_lower, lemma_val_single, limbs_val,
};
use super::mul::{mul_add_u64_inplace, mul_mag, pow10_mag};
use super::shift::{bit_length, bitlen_mag, lemma_bit_length};
use super::word::lemma_pow2_64;
use crate::digits::{
    decimal_digits, digit_char, fixed_digits, lemma_digits_len, lemma_digits_len_unique,
    lemma_digits_split, lemma_fixed_is_padded, lemma_fixed_split, lemma_pow10_add,
    lemma_pow10_is_pow, lemma_pow10_mono, lemma_pow10_pos, lemma_pow10_values, pow10,
};
use crate::text::{
    answered, ascii_str, lemma_wrote_failed, lemma_wrote_then, wrote, SinkError, TextSink,
};
use vstd::arithmetic::power2::{
    lemma2_to64, lemma_pow2_adds, lemma_pow2_pos, lemma_pow2_strictly_increases, lemma_pow2_unfold, pow2,
};
use vstd::prelude::*;
use vstd::slice::{slice_subrange, slice_to_vec};

verus! {

/// The largest power of ten below `2^64`, and its digit count: 19 digits are peeled per division.
pub const DECIMAL_CHUNK: u64 = 10_000_000_000_000_000_000;

pub const DECIMAL_CHUNK_DIGITS: usize = 19;

/// At or below this many limbs the linear chunk method is used.
pub const DECIMAL_RECURSIVE_THRESHOLD: usize = 64;

/// The text of one chunk: natural width, or zero-padded to a full chunk.
pub open spec fn chunk_text(v: nat, full: bool) -> Seq<char> {
    if full {
        fixed_digits(v, 19)
    } else {
        decimal_digits(v)
    }
}

/// Write one chunk to the sink, zero-padded to 19 digits when `full`.
fn write_decimal_chunk<W: TextSink>(w: &mut W, value: u64, full: bool) -> (r: Result<(), SinkError>)
    requires
        full ==> value < DECIMAL_CHUNK,
    ensures
        wrote(old(w).text(), final(w).text(), chunk_text(value as nat, full), r is Ok),
        old(w).never_full() ==> r is Ok && final(w).never_full(),
        answered(old(w).refusals(), final(w).refusals(), final(w).refused(), r is Ok),
{
    let mut buf: Vec<u8> = Vec::new();
    buf.resize(20, 48u8);
    let mut i: usize = 20;
    let mut v: u64 = value;
    let ghost chars = |s: Seq<u8>| Seq::new(s.len(), |k: int| s[k] as char);
    proof {
        lemma_pow10_values();
        assert(chars(buf@.skip(20)) =~= seq![]);
        assert(decimal_digits(value as nat) + seq![] =~= decimal_digits(value as nat));
    }
    while v >= 10
        invariant
            buf@.len() == 20,
            1 <= i <= 20,
            v < pow10(i as nat),
            forall|k: int| 0 <= k < 20 ==> 48 <= #[trigger] buf@[k] <= 57,
            forall|k: int| 0 <= k < i ==> buf@[k] == 48,
            chars == (|s: Seq<u8>| Seq::new(s.len(), |k: int| s[k] as char)),
            decimal_digits(value as nat) == decimal_digits(v as nat) + chars(buf@.skip(i as int)),
        decreases v,
    {
        let ghost buf0 = buf@;
        proof {
            if i == 1 {
                lemma_pow10_values();
            }
            assert(pow10(i as nat) == 10 * pow10((i - 1) as nat));
        }
        i = i - 1;
        buf.set(i, 48 + (v % 10) as u8);
        proof {
            let d = digit_char((v % 10) as nat);
            assert(buf@.skip(i as int) =~= seq![buf@[i as int]] + buf0.skip(i + 1));
            assert(chars(buf@.skip(i as int)) =~= seq![d] + chars(buf0.skip(i + 1)));
            assert(decimal_digits(v as nat) == decimal_digits((v / 10) as nat).push(d));
            assert(decimal_digits((v / 10) as nat).push(d) + chars(buf0.skip(i + 1))
                =~= decimal_digits((v / 10) as nat) + (seq![d] + chars(buf0.skip(i + 1))));
        }
        v = v / 10;
    }
    let ghost buf0 = buf@;
    i = i - 1;
    buf.set(i, 48 + v as u8);
    proof {
        let d = digit_char(v as nat);
        assert(buf@.skip(i as int) =~= seq![buf@[i as int]] + buf0.skip(i + 1));
        assert(chars(buf@.skip(i as int)) =~= seq![d] + chars(buf0.skip(i + 1)));
        assert(decimal_digits(v as nat) =~= seq![d]);
        assert(decimal_digits(value as nat) =~= chars(buf@.skip(i as int)));
    }
    let start: usize = if full {
        1
    } else {
        i
    };
    let out: &[u8] = slice_subrange(buf.as_slice(), start, 20);
    let text: &str = ascii_str(out);
    proof {
        if full {
            lemma_pow10_values();
            lemma_fixed_is_padded(value as nat, 19);
            let zeros = Seq::new((19 - decimal_digits(value as nat).len()) as nat, |k: int| '0');
            assert(decimal_digits(value as nat).len() == 20 - i);
            assert(text@ =~= zeros + decimal_digits(value as nat));
        } else {
            assert(text@ =~= chars(buf@.skip(i as int)));
        }
    }
    w.write_str(text)
}

/// Linear base conversion: peel 19-digit chunks off the value and write them most significant first.
fn emit_decimal_linear<W: TextSink>(mag: Vec<u64>, w: &mut W) -> (r: Result<(), SinkError>)
    requires
        canonical(mag@),
        mag@.len() > 0,
    ensures
        wrote(old(w).text(), final(w).text(), decimal_digits(limbs_val(mag@)), r is Ok),
        old(w).never_full() ==> r is Ok && final(w).never_full(),
        answered(old(w).refusals(), final(w).refusals(), final(w).refused(), r is Ok),
    decreases limbs_val(mag@),
{
    let mut cur: Vec<u64> = mag;
    proof {
        lemma_canonical_lower(cur@);
        lemma_pow10_values();
    }
    let rem: u64 = div_rem_limb_inplace(&mut cur, DECIMAL_CHUNK);
    if cur.len() == 0 {
        proof {
            assert(0 * DECIMAL_CHUNK == 0);
        }
        return write_decimal_chunk(w, rem, false);
    }
    let ghost high = limbs_val(cur@);
    proof {
        lemma_canonical_lower(cur@);
        lemma_digits_split(high, rem as nat, 19);
    }
    let ghost t0 = w.text();
    let first: Result<(), SinkError> = emit_decimal_linear(cur, w);
    if first.is_err() {
        proof {
            lemma_wrote_failed(t0, w.text(), decimal_digits(high), fixed_digits(rem as nat, 19));
        }
        return first;
    }
    let ghost t1 = w.text();
    let second: Result<(), SinkError> = write_decimal_chunk(w, rem, true);
    proof {
        lemma_wrote_then(
            t0,
            t1,
            w.text(),
            decimal_digits(high),
            fixed_digits(rem as nat, 19),
            second is Ok,
        );
    }
    second
}

/// The digit width of a recursion level: `19 * 2^level`.
spec fn level_width(level: nat) -> nat {
    19 * pow2(level)
}

/// `pow[i] = 10^(19 * 2^i)`.
spec fn power_stack(stack: Seq<Vec<u64>>) -> bool {
    forall|i: int|
        0 <= i < stack.len() ==> {
            &&& canonical(#[trigger] stack[i]@)
            &&& limbs_val(stack[i]@) == pow10(level_width(i as nat))
        }
}

proof fn lemma_level_square(level: nat)
    ensures
        level_width(level + 1) == level_width(level) + level_width(level),
        pow10(level_width(level + 1)) == pow10(level_width(level)) * pow10(level_width(level)),
{
    lemma_pow2_unfold(level + 1);
    lemma_pow10_add(level_width(level), level_width(level));
}

/// The text of one node of the recursive split.
spec fn node_text(v: nat, top: bool, level: nat) -> Seq<char> {
    if top {
        decimal_digits(v)
    } else {
        fixed_digits(v, level_width(level))
    }
}

/// Recursively render a value below `10^(19 * 2^level)`: at natural width for a `top` node, at exactly
/// that many digits otherwise.
fn write_decimal_rec<W: TextSink>(
    mag: &[u64],
    w: &mut W,
    top: bool,
    level: usize,
    stack: &Vec<Vec<u64>>,
) -> (r: Result<(), SinkError>)
    requires
        canonical(mag@),
        level <= stack@.len(),
        power_stack(stack@),
        limbs_val(mag@) < pow10(level_width(level as nat)),
        top ==> limbs_val(mag@) > 0,
    ensures
        wrote(
            old(w).text(),
            final(w).text(),
            node_text(limbs_val(mag@), top, level as nat),
            r is Ok,
        ),
        old(w).never_full() ==> r is Ok && final(w).never_full(),
        answered(old(w).refusals(), final(w).refusals(), final(w).refused(), r is Ok),
    decreases level,
{
    let ghost value = limbs_val(mag@);
    if level == 0 {
        proof {
            lemma_pow10_values();
            lemma2_to64();
            if mag@.len() > 1 {
                lemma_canonical_lower(mag@);
                super::limbs::lemma_bpow_mono(1, (mag@.len() - 1) as nat);
                reveal_with_fuel(bpow, 2);
            }
            if mag@.len() == 1 {
                assert(mag@ =~= seq![mag@[0]]);
                lemma_val_single(mag@[0]);
            }
        }
        let v: u64 = if mag.len() > 0 {
            mag[0]
        } else {
            0
        };
        return write_decimal_chunk(w, v, !top);
    }
    let half: &Vec<u64> = &stack[level - 1];
    let ghost wd = level_width((level - 1) as nat);
    let ghost p = pow10(wd);
    proof {
        lemma_level_square((level - 1) as nat);
        lemma_pow10_pos(wd);
        assert(canonical(stack@[level - 1]@));
    }
    let (hi, lo): (Vec<u64>, Vec<u64>) = divmod_mag(mag, half.as_slice());
    let ghost h = limbs_val(hi@);
    let ghost l = limbs_val(lo@);
    proof {
        vstd::arithmetic::div_mod::lemma_fundamental_div_mod(value as int, p as int);
        vstd::arithmetic::div_mod::lemma_mod_bound(value as int, p as int);
        assert(p * h == h * p) by (nonlinear_arith);
        assert(h < p) by (nonlinear_arith)
            requires
                h * p + l == value,
                value < p * p,
                l >= 0,
                p >= 1,
        ;
    }
    if top && hi.len() == 0 {
        proof {
            assert(0 * p == 0) by (nonlinear_arith);
        }
        write_decimal_rec(lo.as_slice(), w, true, level - 1, stack)
    } else {
        proof {
            if top {
                lemma_canonical_lower(hi@);
                lemma_digits_split(h, l, wd);
            } else {
                lemma_fixed_split(h, l, wd, wd);
            }
        }
        let ghost t0 = w.text();
        let ghost s1 = node_text(h, top, (level - 1) as nat);
        let ghost s2 = node_text(l, false, (level - 1) as nat);
        let first: Result<(), SinkError> = write_decimal_rec(hi.as_slice(), w, top, level - 1, stack);
        if first.is_err() {
            proof {
                lemma_wrote_failed(t0, w.text(), s1, s2);
            }
            return first;
        }
        let ghost t1 = w.text();
        let second: Result<(), SinkError> = write_decimal_rec(
            lo.as_slice(),
            w,
            false,
            level - 1,
            stack,
        );
        proof {
            lemma_wrote_then(t0, t1, w.text(), s1, s2, second is Ok);
        }
        second
    }
}

/// Render a nonzero canonical magnitude: linear for narrow values, and for wide ones a recursive
/// split by the powers `10^(19 * 2^i)`.
pub(crate) fn write_decimal_mag<W: TextSink>(mag: &[u64], w: &mut W) -> (r: Result<(), SinkError>)
    requires
        canonical(mag@),
        mag@.len() > 0,
    ensures
        wrote(old(w).text(), final(w).text(), decimal_digits(limbs_val(mag@)), r is Ok),
        old(w).never_full() ==> r is Ok && final(w).never_full(),
        answered(old(w).refusals(), final(w).refusals(), final(w).refused(), r is Ok),
{
    if mag.len() <= 1 {
        proof {
            assert(mag@ =~= seq![mag@[0]]);
            lemma_val_single(mag@[0]);
        }
        return write_decimal_chunk(w, mag[0], false);
    }
    if mag.len() <= DECIMAL_RECURSIVE_THRESHOLD {
        return emit_decimal_linear(slice_to_vec(mag), w);
    }
    let ghost value = limbs_val(mag@);
    let value_bits: u128 = bitlen_mag(mag);
    let mut stack: Vec<Vec<u64>> = Vec::new();
    let mut first: Vec<u64> = Vec::new();
    first.push(DECIMAL_CHUNK);
    proof {
        lemma_canonical_lower(mag@);
        lemma_pow10_values();
        lemma2_to64();
        assert(first@ =~= seq![DECIMAL_CHUNK]);
        lemma_val_single(DECIMAL_CHUNK);
        super::limbs::lemma_bpow_mono(1, (mag@.len() - 1) as nat);
        reveal_with_fuel(bpow, 2);
    }
    stack.push(first);
    loop
        invariant
            canonical(mag@),
            value == limbs_val(mag@),
            value > 0,
            value_bits == bit_length(value),
            value_bits <= 64 * mag@.len(),
            stack@.len() > 0,
            power_stack(stack@),
            pow10(level_width((stack@.len() - 1) as nat)) <= value,
        ensures
            value < pow10(level_width(stack@.len() as nat)),
        decreases value - pow10(level_width((stack@.len() - 1) as nat)),
    {
        let n: usize = stack.len();
        let top: &Vec<u64> = &stack[n - 1];
        let ghost tv = limbs_val(top@);
        proof {
            assert(canonical(stack@[n - 1]@));
            lemma_level_square((n - 1) as nat);
            lemma_pow10_pos(level_width((n - 1) as nat));
            assert(pow10(level_width(n as nat)) == tv * tv);
        }
        let top_bits: u128 = bitlen_mag(top.as_slice());
        proof {
            assert(top@.len() == top.len());
            lemma_bit_length(tv);
            lemma_bit_length(value);
        }
        if 2 * top_bits - 1 > value_bits {
            proof {
                let b = top_bits as int;
                let q = pow2((b - 1) as nat);
                lemma_pow2_adds((b - 1) as nat, (b - 1) as nat);
                assert(tv * tv >= q * q) by (nonlinear_arith)
                    requires
                        tv >= q,
                        q >= 0,
                ;
                if value_bits < 2 * b - 2 {
                    lemma_pow2_strictly_increases(value_bits as nat, (2 * b - 2) as nat);
                }
            }
            break ;
        }
        let sq: Vec<u64> = mul_mag(top.as_slice(), top.as_slice());
        match relate_mag(sq.as_slice(), mag) {
            Relation::Greater => {
                break ;
            },
            _ => {},
        }
        proof {
            lemma_pow10_values();
            lemma_pow2_pos((n - 1) as nat);
            lemma_pow10_mono(19, level_width((n - 1) as nat));
            assert(tv * tv > tv) by (nonlinear_arith)
                requires
                    tv >= 2,
            ;
        }
        stack.push(sq);
    }
    write_decimal_rec(mag, w, true, stack.len(), &stack)
}

/// `10^n <= m * 2^e`.
spec fn pow10_below(n: nat, m: nat, e: nat) -> bool {
    pow10(n) <= m * pow2(e)
}

/// Multiplying two upper bounds and rounding the mantissa up by `k` bits.
proof fn lemma_pow10_below_mul(
    n1: nat,
    m1: nat,
    e1: nat,
    n2: nat,
    m2: nat,
    e2: nat,
    m: nat,
    k: nat,
)
    requires
        pow10_below(n1, m1, e1),
        pow10_below(n2, m2, e2),
        m1 * m2 <= m * pow2(k),
    ensures
        pow10_below(n1 + n2, m, e1 + e2 + k),
{
    lemma_pow10_add(n1, n2);
    lemma_pow2_adds(e1, e2);
    lemma_pow2_adds(e1 + e2, k);
    let a = pow10(n1);
    let b = pow10(n2);
    let p = pow2(e1);
    let q = pow2(e2);
    let r = pow2(k);
    assert(a * b <= (m1 * p) * (m2 * q)) by (nonlinear_arith)
        requires
            0 <= a <= m1 * p,
            0 <= b <= m2 * q,
    ;
    assert((m1 * p) * (m2 * q) == (m1 * m2) * (p * q)) by (nonlinear_arith);
    assert((m1 * m2) * (p * q) <= (m * r) * (p * q)) by (nonlinear_arith)
        requires
            m1 * m2 <= m * r,
            p * q >= 0,
    ;
    assert((m * r) * (p * q) == m * ((p * q) * r)) by (nonlinear_arith);
}

/// `10^643 <= 2^2136`, by repeated squaring of rounded-up mantissas.
proof fn lemma_pow10_643()
    ensures
        pow10(643) <= pow2(2136),
{
    reveal_with_fuel(pow10, 6);
    lemma2_to64();
    lemma_pow2_64();
    vstd::arithmetic::power2::lemma2_to64_rest();
    assert(pow10_below(5, 100000, 0));
    assert(pow10_below(3, 1000, 0));
    lemma_pow10_below_mul(5, 100000, 0, 5, 100000, 0, 10000000000, 0);
    lemma_pow10_below_mul(10, 10000000000, 0, 10, 10000000000, 0, 48828125000000000, 11);
    lemma_pow10_below_mul(20, 48828125000000000, 11, 20, 48828125000000000, 11, 66174449004242214, 55);
    lemma_pow10_below_mul(40, 66174449004242214, 77, 40, 66174449004242214, 77, 60771633572862713, 56);
    lemma_pow10_below_mul(80, 60771633572862713, 210, 80, 60771633572862713, 210, 51253327236687386, 56);
    lemma_pow10_below_mul(160, 51253327236687386, 476, 160, 51253327236687386, 476, 36455610097781991, 56);
    lemma_pow10_below_mul(320, 36455610097781991, 1008, 320, 36455610097781991, 1008, 36887479393274533, 55);
    lemma_pow10_below_mul(640, 36887479393274533, 2071, 3, 1000, 0, 72045858189989323, 9);
    lemma_pow2_adds(2080, 56);
    let p = pow2(2080);
    assert(72045858189989323 * p <= p * pow2(56)) by (nonlinear_arith)
        requires
            72045858189989323 <= pow2(56),
            p >= 0,
    ;
}

/// The bit width that the estimate of the digit count relies on: with `n = 643 q + 59 a + 3 t + u`,
/// `10^n <= 2^(2136 q + 196 a + 10 t + w)` where `w` is 0, 4 or 7 for `u` = 0, 1 or 2.
spec fn decade_bits(n: nat) -> nat
    decreases n,
{
    if n >= 643 {
        2136 + decade_bits((n - 643) as nat)
    } else if n >= 59 {
        196 + decade_bits((n - 59) as nat)
    } else if n >= 3 {
        10 + decade_bits((n - 3) as nat)
    } else if n == 2 {
        7
    } else if n == 1 {
        4
    } else {
        0
    }
}

proof fn lemma_pow10_small()
    ensures
        pow10(59) <= pow2(196),
        pow10(3) <= pow2(10),
        pow10(2) <= pow2(7),
        pow10(1) <= pow2(4),
        pow10(0) <= pow2(0),
{
    lemma_pow10_values();
    lemma_pow10_add(20, 20);
    lemma_pow10_add(40, 19);
    lemma2_to64();
    lemma_pow2_64();
    lemma_pow2_adds(64, 64);
    lemma_pow2_adds(128, 64);
    lemma_pow2_adds(192, 4);
}

proof fn lemma_decade_bits(n: nat)
    ensures
        pow10(n) <= pow2(decade_bits(n)),
    decreases n,
{
    lemma_pow10_small();
    let s: nat = if n >= 643 {
        643
    } else if n >= 59 {
        59
    } else {
        3
    };
    let b: nat = if n >= 643 {
        2136
    } else if n >= 59 {
        196
    } else {
        10
    };
    if n >= 3 {
        if n >= 643 {
            lemma_pow10_643();
        }
        let m = (n - s) as nat;
        lemma_decade_bits(m);
        lemma_pow10_add(s, m);
        lemma_pow2_adds(b, decade_bits(m));
        assert(pow10(s) * pow10(m) <= pow2(b) * pow2(decade_bits(m))) by (nonlinear_arith)
            requires
                0 <= pow10(s) <= pow2(b),
                0 <= pow10(m) <= pow2(decade_bits(m)),
        ;
    }
}

/// How far `decade_bits` can exceed the ratio `4096 / 1233`.
proof fn lemma_decade_slack(n: nat)
    ensures
        1233 * decade_bits(n) <= 4096 * n + 1674,
        n < 643 ==> 1233 * decade_bits(n) <= 4096 * n + 4 * (n / 59) + 1634,
        n < 59 ==> 1233 * decade_bits(n) <= 4096 * n + 42 * (n / 3) + 836,
    decreases n,
{
    if n >= 643 {
        lemma_decade_slack((n - 643) as nat);
    } else if n >= 59 {
        lemma_decade_slack((n - 59) as nat);
    } else if n >= 3 {
        lemma_decade_slack((n - 3) as nat);
    }
}

/// The number of decimal digits of a canonical magnitude, without rendering it.
pub(crate) fn digit_count_mag(mag: &[u64]) -> (d: u64)
    requires
        canonical(mag@),
        decimal_digits(limbs_val(mag@)).len() <= u64::MAX,
    ensures
        d == decimal_digits(limbs_val(mag@)).len(),
{
    if mag.len() == 0 {
        return 1;
    }
    let ghost value = limbs_val(mag@);
    let ghost count = decimal_digits(value).len();
    let bits: u128 = bitlen_mag(mag);
    let est: u128 = (bits * 1233) / 4096;
    proof {
        lemma_canonical_lower(mag@);
        lemma_bit_length(value);
        lemma_digits_len(value);
        // 10^(est - 2) <= 2^(bits - 1) <= value
        if est > 2 {
            let n = (est - 2) as nat;
            lemma_decade_bits(n);
            lemma_decade_slack(n);
            assert(decade_bits(n) <= bits - 1);
            if decade_bits(n) < bits - 1 {
                lemma_pow2_strictly_increases(decade_bits(n), (bits - 1) as nat);
            }
            if est - 2 >= count {
                lemma_pow10_mono(count, n);
            }
        }
    }
    let start: u64 = if est > 2 {
        (est - 1) as u64
    } else {
        1
    };
    proof {
        lemma_pow10_is_pow(start as nat);
        lemma_pow10_values();
    }
    let mut d: u64 = start;
    let mut p: Vec<u64> = pow10_mag(d);
    loop
        invariant
            canonical(mag@),
            canonical(p@),
            value == limbs_val(mag@),
            value >= 1,
            count == decimal_digits(value).len(),
            count <= u64::MAX,
            1 <= d,
            limbs_val(p@) == pow10(d as nat),
            pow10((d - 1) as nat) <= value,
        ensures
            value < pow10(d as nat),
        decreases u64::MAX - d,
    {
        match relate_mag(mag, p.as_slice()) {
            Relation::Less => {
                break ;
            },
            _ => {},
        }
        proof {
            lemma_digits_len(value);
            if d >= count {
                lemma_pow10_mono(count, d as nat);
            }
            assert(limbs_val(p@) * 10 + 0 == pow10((d + 1) as nat));
        }
        mul_add_u64_inplace(&mut p, 10, 0);
        d = d + 1;
    }
    proof {
        lemma_digits_len_unique(value, d as nat);
    }
    d
}

} // verus!
