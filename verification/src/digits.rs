//! Base-10 digit sequences of natural numbers.
use vstd::arithmetic::power::{lemma_pow0, lemma_pow1, lemma_pow_adds, pow};
use vstd::prelude::*;

verus! {

/// `10^n`.
pub open spec fn pow10(n: nat) -> nat
    decreases n,
{
    if n == 0 {
        1
    } else {
        10 * pow10((n - 1) as nat)
    }
}

/// The ASCII digit of `d`.
pub open spec fn digit_char(d: nat) -> char {
    (48 + d) as char
}

/// The decimal digits of `n`, most significant first, without leading zeros (`0` is `"0"`).
pub open spec fn decimal_digits(n: nat) -> Seq<char>
    decreases n,
{
    if n < 10 {
        seq![digit_char(n)]
    } else {
        decimal_digits(n / 10).push(digit_char(n % 10))
    }
}

/// The last `w` decimal digits of `n`, zero-padded.
pub open spec fn fixed_digits(n: nat, w: nat) -> Seq<char>
    decreases w,
{
    if w == 0 {
        seq![]
    } else {
        fixed_digits(n / 10, (w - 1) as nat).push(digit_char(n % 10))
    }
}

pub proof fn lemma_pow10_pos(n: nat)
    ensures
        pow10(n) >= 1,
    decreases n,
{
    if n > 0 {
        lemma_pow10_pos((n - 1) as nat);
    }
}

pub proof fn lemma_pow10_add(m: nat, n: nat)
    ensures
        pow10(m + n) == pow10(m) * pow10(n),
    decreases m,
{
    if m > 0 {
        lemma_pow10_add((m - 1) as nat, n);
        let p = pow10((m - 1) as nat);
        assert(10 * (p * pow10(n)) == (10 * p) * pow10(n)) by (nonlinear_arith);
        assert((m + n - 1) as nat == (m - 1) as nat + n);
    } else {
        assert(1 * pow10(n) == pow10(n)) by (nonlinear_arith);
    }
}

pub proof fn lemma_pow10_mono(m: nat, n: nat)
    requires
        m <= n,
    ensures
        pow10(m) <= pow10(n),
    decreases n - m,
{
    if m < n {
        lemma_pow10_mono(m, (n - 1) as nat);
        lemma_pow10_pos((n - 1) as nat);
    }
}

pub proof fn lemma_pow10_is_pow(n: nat)
    ensures
        pow10(n) == pow(10, n),
    decreases n,
{
    if n == 0 {
        lemma_pow0(10);
    } else {
        lemma_pow10_is_pow((n - 1) as nat);
        lemma_pow_adds(10, 1, (n - 1) as nat);
        lemma_pow1(10);
    }
}

pub proof fn lemma_pow10_values()
    ensures
        pow10(0) == 1,
        pow10(1) == 10,
        pow10(2) == 100,
        pow10(3) == 1000,
        pow10(18) == 1_000_000_000_000_000_000,
        pow10(19) == 10_000_000_000_000_000_000,
        pow10(20) == 100_000_000_000_000_000_000,
{
    reveal_with_fuel(pow10, 21);
}

/// A digit is between 0 and 9, so the number of digits brackets the value.
pub proof fn lemma_digits_len(n: nat)
    ensures
        decimal_digits(n).len() >= 1,
        n < pow10(decimal_digits(n).len()),
        n >= 1 ==> pow10((decimal_digits(n).len() - 1) as nat) <= n,
    decreases n,
{
    lemma_pow10_values();
    if n >= 10 {
        lemma_digits_len(n / 10);
        let k = decimal_digits(n / 10).len();
        assert(decimal_digits(n).len() == k + 1);
        assert(pow10(k) == 10 * pow10((k - 1) as nat));
    }
}

/// The digit count is determined by the powers of ten around the value.
pub proof fn lemma_digits_len_unique(n: nat, d: nat)
    requires
        d >= 1,
        n < pow10(d),
        n >= 1,
        pow10((d - 1) as nat) <= n,
    ensures
        decimal_digits(n).len() == d,
{
    lemma_digits_len(n);
    let k = decimal_digits(n).len();
    if k < d {
        lemma_pow10_mono(k, (d - 1) as nat);
    }
    if d < k {
        lemma_pow10_mono(d, (k - 1) as nat);
    }
}

pub proof fn lemma_fixed_len(n: nat, w: nat)
    ensures
        fixed_digits(n, w).len() == w,
    decreases w,
{
    if w > 0 {
        lemma_fixed_len(n / 10, (w - 1) as nat);
    }
}

/// Splitting off the low `k` digits of a fixed-width rendering.
pub proof fn lemma_fixed_split(h: nat, l: nat, j: nat, k: nat)
    requires
        l < pow10(k),
    ensures
        fixed_digits(h * pow10(k) + l, j + k) == fixed_digits(h, j) + fixed_digits(l, k),
    decreases k,
{
    if k == 0 {
        assert(h * 1 == h);
        assert(l == 0);
        assert(fixed_digits(h, j) + fixed_digits(l, 0) =~= fixed_digits(h, j));
    } else {
        let p = pow10((k - 1) as nat);
        let n = h * pow10(k) + l;
        assert(n == 10 * (h * p) + l) by (nonlinear_arith)
            requires
                n == h * (10 * p) + l,
        ;
        assert(n / 10 == h * p + l / 10);
        assert(n % 10 == l % 10);
        lemma_fixed_split(h, l / 10, j, (k - 1) as nat);
        assert((j + k - 1) as nat == j + (k - 1) as nat);
        assert(fixed_digits(n, j + k) =~= fixed_digits(h, j) + fixed_digits(l, k));
    }
}

/// Splitting off the low `k` digits of a natural rendering.
pub proof fn lemma_digits_split(h: nat, l: nat, k: nat)
    requires
        h > 0,
        l < pow10(k),
    ensures
        decimal_digits(h * pow10(k) + l) == decimal_digits(h) + fixed_digits(l, k),
    decreases k,
{
    if k == 0 {
        assert(h * 1 == h);
        assert(l == 0);
        assert(decimal_digits(h) + fixed_digits(l, 0) =~= decimal_digits(h));
    } else {
        let p = pow10((k - 1) as nat);
        lemma_pow10_pos((k - 1) as nat);
        let n = h * pow10(k) + l;
        assert(n == 10 * (h * p) + l) by (nonlinear_arith)
            requires
                n == h * (10 * p) + l,
        ;
        assert(h * p >= 1) by (nonlinear_arith)
            requires
                h >= 1,
                p >= 1,
        ;
        assert(n / 10 == h * p + l / 10);
        assert(n % 10 == l % 10);
        lemma_digits_split(h, l / 10, (k - 1) as nat);
        assert(decimal_digits(n) =~= decimal_digits(h) + fixed_digits(l, k));
    }
}

/// Padding the natural rendering with zeros gives the fixed-width one.
pub proof fn lemma_fixed_is_padded(n: nat, w: nat)
    requires
        n < pow10(w),
        w > 0,
    ensures
        decimal_digits(n).len() <= w,
        fixed_digits(n, w) == Seq::new((w - decimal_digits(n).len()) as nat, |i: int| '0')
            + decimal_digits(n),
    decreases w,
{
    lemma_pow10_values();
    if w == 1 {
        assert(fixed_digits(n / 10, 0) =~= seq![]);
        assert(n % 10 == n);
        assert(fixed_digits(n, 1) =~= seq![digit_char(n)]);
        assert(Seq::new(0, |i: int| '0') + decimal_digits(n) =~= seq![digit_char(n)]);
    } else {
        lemma_fixed_is_padded(n / 10, (w - 1) as nat);
        if n >= 10 {
            assert(fixed_digits(n, w) =~= Seq::new(
                (w - decimal_digits(n).len()) as nat,
                |i: int| '0',
            ) + decimal_digits(n));
        } else {
            assert(n / 10 == 0);
            assert(decimal_digits(0) =~= seq!['0']);
            assert(fixed_digits(n, w) =~= Seq::new(
                (w - decimal_digits(n).len()) as nat,
                |i: int| '0',
            ) + decimal_digits(n));
        }
    }
}

} // verus!
