//! Mathematical model of decimal digits, powers of ten and scaled values.
use vstd::prelude::*;

verus! {

/// 10 to the power `n`.
pub open spec fn pow10(n: nat) -> nat
    decreases n,
{
    if n == 0 {
        1
    } else {
        10 * pow10((n - 1) as nat)
    }
}

/// The number that a most-significant-first sequence of decimal digits denotes.
pub open spec fn digits_value(s: Seq<u8>) -> nat
    decreases s.len(),
{
    if s.len() == 0 {
        0
    } else {
        digits_value(s.drop_last()) * 10 + s.last() as nat
    }
}

/// The number of decimal digits needed to write `n` (one for zero).
pub open spec fn digit_count(n: nat) -> nat
    decreases n,
{
    if n < 10 {
        1
    } else {
        1 + digit_count(n / 10)
    }
}

/// A digit sequence as big integers print it: at least one digit, each below
/// ten, and no leading zero unless the number is zero itself.
pub open spec fn canonical_digits(s: Seq<u8>) -> bool {
    &&& s.len() >= 1
    &&& forall|i: int| 0 <= i < s.len() ==> #[trigger] s[i] < 10
    &&& s.len() > 1 ==> s[0] != 0
}

/// The ASCII character of a decimal digit.
pub open spec fn digit_char(d: u8) -> char {
    ((d + 48) as u8) as char
}

/// The ASCII characters of a digit sequence.
pub open spec fn digit_chars(s: Seq<u8>) -> Seq<char> {
    s.map_values(|d: u8| digit_char(d))
}

pub open spec fn is_digit_char(c: char) -> bool {
    '0' <= c && c <= '9'
}

/// The number that a non-empty run of ASCII digit characters denotes.
pub open spec fn chars_value(t: Seq<char>) -> nat
    decreases t.len(),
{
    if t.len() == 0 {
        0
    } else {
        chars_value(t.drop_last()) * 10 + ((t.last() as int - 48) as nat)
    }
}

/// The canonical decimal digits of `n`, most significant first.
pub open spec fn decimal_digits(n: nat) -> Seq<u8>
    decreases n,
{
    if n < 10 {
        seq![n as u8]
    } else {
        decimal_digits(n / 10).push((n % 10) as u8)
    }
}

/// Canonical digits are determined by the number they denote.
pub proof fn lemma_canonical_unique(s: Seq<u8>)
    requires
        canonical_digits(s),
    ensures
        s == decimal_digits(digits_value(s)),
    decreases s.len(),
{
    if s.len() == 1 {
        assert(s.drop_last().len() == 0);
        assert(digits_value(s.drop_last()) == 0);
        assert(s.last() == s[0]);
        assert(s[0] < 10);
        assert(s =~= seq![s[0]]);
    } else {
        let p = s.drop_last();
        assert(p[0] == s[0]);
        assert forall|i: int| 0 <= i < p.len() implies #[trigger] p[i] < 10 by {
            assert(p[i] == s[i]);
        }
        lemma_canonical_unique(p);
        lemma_leading_digit_positive(p);
        assert(s.last() < 10) by {
            assert(s[s.len() - 1] < 10);
        }
        let v = digits_value(s);
        assert(v / 10 == digits_value(p));
        assert(v % 10 == s.last());
        assert(s =~= p.push(s.last()));
    }
}

/// The absolute value of an integer.
pub open spec fn abs_of(m: int) -> nat {
    if m < 0 {
        (-m) as nat
    } else {
        m as nat
    }
}

/// `n` zero characters.
pub open spec fn zeros(n: nat) -> Seq<char> {
    Seq::new(n, |i: int| '0')
}

/// A value `m * 10^-s` written as a mantissa at the larger scale `k`.
pub open spec fn at_scale(m: int, s: int, k: int) -> int {
    m * pow10((k - s) as nat)
}

/// The larger of two integers.
pub open spec fn max_int(a: int, b: int) -> int {
    if a >= b {
        a
    } else {
        b
    }
}

/// `(m1, s1)` and `(m2, s2)` denote the same number.
pub open spec fn same_value(m1: int, s1: int, m2: int, s2: int) -> bool {
    at_scale(m1, s1, max_int(s1, s2)) == at_scale(m2, s2, max_int(s1, s2))
}

pub proof fn lemma_pow10_positive(n: nat)
    ensures
        pow10(n) >= 1,
    decreases n,
{
    if n > 0 {
        lemma_pow10_positive((n - 1) as nat);
    }
}

pub proof fn lemma_pow10_add(a: nat, b: nat)
    ensures
        pow10(a + b) == pow10(a) * pow10(b),
    decreases a,
{
    if a > 0 {
        lemma_pow10_add((a - 1) as nat, b);
        assert((a + b - 1) as nat == ((a - 1) as nat + b) as nat);
        assert(pow10(a + b) == 10 * pow10((a + b - 1) as nat));
        let x = pow10((a - 1) as nat);
        let y = pow10(b);
        assert(pow10(a) == 10 * x);
        assert(pow10(a + b) == 10 * (x * y));
        assert((10 * x) * y == 10 * (x * y)) by (nonlinear_arith);
    } else {
        assert(pow10(a) == 1);
        assert((a + b) as nat == b);
    }
}

/// Moving a scaled mantissa to a larger common scale multiplies both sides alike.
pub proof fn lemma_at_scale_lift(m: int, s: int, k: int, k2: int)
    requires
        s <= k,
        k <= k2,
    ensures
        at_scale(m, s, k2) == at_scale(m, s, k) * pow10((k2 - k) as nat),
{
    lemma_pow10_add((k - s) as nat, (k2 - k) as nat);
    assert(((k - s) as nat + (k2 - k) as nat) as nat == (k2 - s) as nat);
    assert(m * (pow10((k - s) as nat) * pow10((k2 - k) as nat)) == (m * pow10((k - s) as nat))
        * pow10((k2 - k) as nat)) by (nonlinear_arith);
}

/// A canonical digit sequence has exactly as many digits as its value needs.
pub proof fn lemma_canonical_digit_count(s: Seq<u8>)
    requires
        canonical_digits(s),
    ensures
        s.len() == digit_count(digits_value(s)),
    decreases s.len(),
{
    if s.len() == 1 {
        assert(s.drop_last().len() == 0);
        assert(digits_value(s.drop_last()) == 0);
        assert(s.last() == s[0]);
        assert(s[0] < 10);
        assert(digits_value(s) == s[0] as nat);
    } else {
        let p = s.drop_last();
        assert(p[0] == s[0]);
        assert forall|i: int| 0 <= i < p.len() implies #[trigger] p[i] < 10 by {
            assert(p[i] == s[i]);
        }
        lemma_canonical_digit_count(p);
        lemma_leading_digit_positive(p);
        assert(s.last() < 10) by {
            assert(s[s.len() - 1] < 10);
        }
        let v = digits_value(s);
        assert(v == digits_value(p) * 10 + s.last() as nat);
        assert(v / 10 == digits_value(p));
        assert(v >= 10);
    }
}

/// A digit sequence that starts with a non-zero digit denotes a positive number.
pub proof fn lemma_leading_digit_positive(s: Seq<u8>)
    requires
        s.len() >= 1,
        s[0] != 0,
    ensures
        digits_value(s) >= 1,
    decreases s.len(),
{
    if s.len() > 1 {
        let p = s.drop_last();
        assert(p[0] == s[0]);
        lemma_leading_digit_positive(p);
    }
}

/// The value of a canonical digit sequence is zero only for the single digit `0`.
pub proof fn lemma_canonical_zero(s: Seq<u8>)
    requires
        canonical_digits(s),
    ensures
        (digits_value(s) == 0) == (s.len() == 1 && s[0] == 0),
{
    if s.len() > 1 {
        lemma_leading_digit_positive(s);
    } else {
        assert(s.drop_last().len() == 0);
        assert(digits_value(s.drop_last()) == 0);
        assert(s.last() == s[0]);
        if s[0] != 0 {
            lemma_leading_digit_positive(s);
        }
    }
}

} // verus!

verus! {

/// Digits appended on the right shift the value left.
pub proof fn lemma_chars_value_concat(a: Seq<char>, b: Seq<char>)
    ensures
        chars_value(a + b) == chars_value(a) * pow10(b.len()) + chars_value(b),
    decreases b.len(),
{
    if b.len() == 0 {
        assert(a + b =~= a);
        assert(pow10(0) == 1);
    } else {
        let b1 = b.drop_last();
        assert((a + b).drop_last() =~= a + b1);
        assert((a + b).last() == b.last());
        lemma_chars_value_concat(a, b1);
        assert(pow10(b.len()) == 10 * pow10(b1.len()));
        let x = chars_value(a);
        let p = pow10(b1.len());
        assert((x * p + chars_value(b1)) * 10 == x * (10 * p) + chars_value(b1) * 10)
            by (nonlinear_arith);
    }
}

/// A run of zeros denotes zero.
pub proof fn lemma_zeros_value(n: nat)
    ensures
        chars_value(zeros(n)) == 0,
    decreases n,
{
    if n > 0 {
        assert(zeros(n).drop_last() =~= zeros((n - 1) as nat));
        lemma_zeros_value((n - 1) as nat);
    }
}

/// The characters of digits denote the number the digits denote.
pub proof fn lemma_digit_chars_value(s: Seq<u8>)
    requires
        forall|i: int| 0 <= i < s.len() ==> #[trigger] s[i] < 10,
    ensures
        chars_value(digit_chars(s)) == digits_value(s),
        forall|i: int| 0 <= i < s.len() ==> is_digit_char(#[trigger] digit_chars(s)[i]),
    decreases s.len(),
{
    if s.len() > 0 {
        let p = s.drop_last();
        assert(digit_chars(s).drop_last() =~= digit_chars(p));
        assert forall|i: int| 0 <= i < p.len() implies #[trigger] p[i] < 10 by {
            assert(p[i] == s[i]);
        }
        lemma_digit_chars_value(p);
        assert(s[s.len() - 1] < 10);
        assert(digit_chars(s).last() == digit_char(s.last()));
    }
    assert forall|i: int| 0 <= i < s.len() implies is_digit_char(#[trigger] digit_chars(s)[i]) by {
        assert(s[i] < 10);
    }
}

/// The digits of a number are canonical and denote it.
pub proof fn lemma_decimal_digits(n: nat)
    ensures
        canonical_digits(decimal_digits(n)),
        digits_value(decimal_digits(n)) == n,
    decreases n,
{
    let s = decimal_digits(n);
    if n < 10 {
        assert(s.drop_last().len() == 0);
        assert(digits_value(s.drop_last()) == 0);
    } else {
        let p = decimal_digits(n / 10);
        lemma_decimal_digits(n / 10);
        assert(s.drop_last() =~= p);
        assert forall|i: int| 0 <= i < s.len() implies #[trigger] s[i] < 10 by {
            if i < p.len() {
                assert(s[i] == p[i]);
            }
        }
        if p.len() == 1 {
            assert(p[0] as nat == n / 10) by {
                assert(p.drop_last().len() == 0);
                assert(digits_value(p.drop_last()) == 0);
                assert(p.last() == p[0]);
            }
        }
        assert(s[0] == p[0]);
    }
}

} // verus!

verus! {

/// Appending `k` zeros to a positive number adds `k` digits.
pub proof fn lemma_digit_count_shift(n: nat, k: nat)
    requires
        n >= 1,
    ensures
        digit_count(n * pow10(k)) == digit_count(n) + k,
    decreases k,
{
    if k == 0 {
        assert(pow10(0) == 1);
        assert(n * 1 == n);
    } else {
        let p = pow10((k - 1) as nat);
        lemma_pow10_positive((k - 1) as nat);
        lemma_digit_count_shift(n, (k - 1) as nat);
        assert(pow10(k) == 10 * p);
        let q = n * p;
        assert(q >= 1) by (nonlinear_arith)
            requires
                n >= 1,
                p >= 1,
                q == n * p,
        ;
        assert(n * (10 * p) == q * 10) by (nonlinear_arith)
            requires
                q == n * p,
        ;
        assert((q * 10) / 10 == q);
    }
}

} // verus!
