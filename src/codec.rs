//! Validation, rescaling and canonical rendering of decimal values.
use vstd::prelude::*;
use crate::bignum::{div_toward_zero, plain_text, scales_close, with_scale_big};
use crate::decimal::Decimal;
use crate::model::{
    abs_of, at_scale, decimal_digits, digit_chars, digit_count, lemma_canonical_unique,
    lemma_canonical_zero, lemma_digit_count_shift, pow10, zeros,
};

verus! {

/// The largest number of fraction digits a value may have.
pub const MAX_SCALE: i64 = 18;

/// The largest number of significant digits a mantissa may have.
pub const MAX_DIGITS: usize = 52;


/// The bound that a value breaks.
#[derive(PartialEq, Eq, Structural, Debug, Clone, Copy)]
pub enum PrecisionLimit {
    /// The scale exceeds `MAX_SCALE`.
    Scale { scale: i64 },
    /// The mantissa, with a negative exponent written out, has more than
    /// `MAX_DIGITS` digits.
    Digits { digits: u128 },
}

/// The value `m * 10^-s` with a negative exponent written out: scale zero and
/// the mantissa multiplied by the power of ten. A scale of zero or more stays.
pub open spec fn expanded(m: int, s: int) -> (int, int) {
    if s < 0 {
        (m * pow10((-s) as nat), 0)
    } else {
        (m, s)
    }
}

/// Which bound, if any, the value `m * 10^-s` breaks; the scale is checked
/// first, then the digits of the written-out mantissa.
pub open spec fn precision_violation(m: int, s: int) -> Option<PrecisionLimit> {
    if s > MAX_SCALE {
        Some(PrecisionLimit::Scale { scale: s as i64 })
    } else if digit_count(abs_of(expanded(m, s).0)) > MAX_DIGITS {
        Some(PrecisionLimit::Digits { digits: digit_count(abs_of(expanded(m, s).0)) as u128 })
    } else {
        None
    }
}

/// Rejects a value whose scale exceeds 18, or whose mantissa has more than 52
/// digits once a negative exponent is written out (zero has one digit at any
/// scale).
pub fn validate_precision(d: &Decimal) -> (r: Result<(), PrecisionLimit>)
    requires
        d.wf(),
    ensures
        r == match precision_violation(d.mantissa(), d.scale as int) {
            None => Ok::<(), PrecisionLimit>(()),
            Some(l) => Err(l),
        },
{
    assert(abs_of(d.mantissa()) == d.magnitude());
    if d.scale > MAX_SCALE {
        return Err(PrecisionLimit::Scale { scale: d.scale });
    }
    let len = d.digit_count();
    let is_zero = d.digits.len() == 1 && d.digits[0] == 0;
    proof {
        lemma_canonical_zero(d.digits@);
    }
    let digits: u128 = if d.scale < 0 && !is_zero {
        let shift = (0 - d.scale as i128) as u128;
        proof {
            lemma_digit_count_shift(d.magnitude(), shift as nat);
            lemma_abs_scaled(d.mantissa(), pow10(shift as nat) as int);
        }
        len as u128 + shift
    } else {
        proof {
            if d.scale < 0 {
                let p = pow10((-d.scale) as nat) as int;
                assert(d.mantissa() * p == 0) by (nonlinear_arith)
                    requires
                        d.mantissa() == 0,
                ;
            }
        }
        len as u128
    };
    if digits > MAX_DIGITS as u128 {
        return Err(PrecisionLimit::Digits { digits });
    }
    Ok(())
}

/// Writes out a negative exponent of a value within the bounds: the result has
/// a scale of zero or more, as `expanded` states.
pub fn expand_exponent(d: Decimal) -> (r: Decimal)
    requires
        d.wf(),
        precision_violation(d.mantissa(), d.scale as int) is None,
    ensures
        r.wf(),
        (r.mantissa(), r.scale as int) == expanded(d.mantissa(), d.scale as int),
        0 <= r.scale <= MAX_SCALE,
{
    if d.scale >= 0 {
        return d;
    }
    proof {
        lemma_canonical_zero(d.digits@);
    }
    if d.digits.len() == 1 && d.digits[0] == 0 {
        proof {
            let p = pow10((-d.scale) as nat) as int;
            assert(d.mantissa() * p == 0) by (nonlinear_arith)
                requires
                    d.mantissa() == 0,
            ;
        }
        return Decimal::zero();
    }
    proof {
        lemma_digit_count_shift(d.magnitude(), (-d.scale) as nat);
        lemma_abs_scaled(d.mantissa(), pow10((-d.scale) as nat) as int);
    }
    with_scale_big(&d, 0)
}

/// The absolute value of a multiple by a positive factor.
proof fn lemma_abs_scaled(m: int, p: int)
    requires
        p >= 1,
    ensures
        abs_of(m * p) == abs_of(m) * p,
{
    if m < 0 {
        assert(m * p < 0 && -(m * p) == (-m) * p) by (nonlinear_arith)
            requires
                m < 0,
                p >= 1,
        ;
    } else {
        assert(m * p >= 0) by (nonlinear_arith)
            requires
                m >= 0,
                p >= 1,
        ;
    }
}

/// The mantissa of `m * 10^-s` at scale 18: trailing zeros appended, or excess
/// fraction digits dropped, rounding toward zero.
pub open spec fn normalized_mantissa(m: int, s: int) -> int {
    if s <= MAX_SCALE {
        at_scale(m, s, MAX_SCALE as int)
    } else {
        div_toward_zero(m, pow10((s - MAX_SCALE) as nat) as int)
    }
}

/// Rescales a value to exactly 18 fraction digits.
pub fn round_decimal(d: &Decimal) -> (r: Decimal)
    requires
        d.wf(),
        scales_close(MAX_SCALE as int, d.scale as int),
    ensures
        r.wf(),
        r.scale == MAX_SCALE,
        r.mantissa() == normalized_mantissa(d.mantissa(), d.scale as int),
{
    with_scale_big(d, MAX_SCALE)
}

/// The integer digits of the plain rendering of digits `ds` at scale `s`.
pub open spec fn integer_part(ds: Seq<char>, s: int) -> Seq<char> {
    if s <= 0 {
        ds + zeros((-s) as nat)
    } else if s < ds.len() {
        ds.take(ds.len() - s)
    } else {
        seq!['0']
    }
}

/// The fraction digits of the plain rendering of digits `ds` at scale `s`.
pub open spec fn fraction_part(ds: Seq<char>, s: int) -> Seq<char> {
    if s <= 0 {
        Seq::<char>::empty()
    } else if s < ds.len() {
        ds.skip(ds.len() - s)
    } else {
        zeros((s - ds.len()) as nat) + ds
    }
}

/// The canonical text of a value: its sign, its integer digits, and a point and
/// exactly `scale` fraction digits where the scale is positive; never an exponent.
pub open spec fn rendered(d: Decimal) -> Seq<char> {
    plain_text(
        d.negative,
        integer_part(digit_chars(d.digits@), d.scale as int),
        fraction_part(digit_chars(d.digits@), d.scale as int),
    )
}

/// The canonical text of the value `m * 10^-s`.
pub open spec fn render_value(m: int, s: int) -> Seq<char> {
    plain_text(
        m < 0,
        integer_part(digit_chars(decimal_digits(abs_of(m))), s),
        fraction_part(digit_chars(decimal_digits(abs_of(m))), s),
    )
}

/// The text of a value depends on its mantissa and scale alone.
pub proof fn lemma_rendered_value(d: Decimal)
    requires
        d.wf(),
    ensures
        rendered(d) == render_value(d.mantissa(), d.scale as int),
{
    lemma_canonical_unique(d.digits@);
    assert(abs_of(d.mantissa()) == d.magnitude());
    assert((d.mantissa() < 0) == d.negative);
}

/// Relies on `String::push`: the character is appended.
#[verifier::external_body]
fn push_char(s: &mut String, c: char)
    ensures
        final(s)@ == old(s)@.push(c),
{
    s.push(c);
}

/// Appends the characters of `digits[lo..hi]`.
fn push_digits(out: &mut String, digits: &Vec<u8>, lo: usize, hi: usize)
    requires
        lo <= hi <= digits.len(),
        forall|i: int| 0 <= i < digits.len() ==> #[trigger] digits[i] < 10,
    ensures
        final(out)@ == old(out)@ + digit_chars(digits@).subrange(lo as int, hi as int),
{
    let ghost start = out@;
    let mut i = lo;
    while i < hi
        invariant
            lo <= i <= hi <= digits.len(),
            forall|k: int| 0 <= k < digits.len() ==> #[trigger] digits[k] < 10,
            out@ == start + digit_chars(digits@).subrange(lo as int, i as int),
        decreases hi - i,
    {
        let d = digits[i];
        push_char(out, (d + 48) as char);
        i = i + 1;
        assert(out@ =~= start + digit_chars(digits@).subrange(lo as int, i as int));
    }
}

/// Appends `n` zero characters.
fn push_zeros(out: &mut String, n: u64)
    ensures
        final(out)@ == old(out)@ + zeros(n as nat),
{
    let ghost start = out@;
    let mut i: u64 = 0;
    while i < n
        invariant
            i <= n,
            out@ == start + zeros(i as nat),
        decreases n - i,
    {
        push_char(out, '0');
        i = i + 1;
        assert(out@ =~= start + zeros(i as nat));
    }
}

/// Renders a value in plain notation, as `rendered` states.
pub fn render(d: &Decimal) -> (r: String)
    requires
        d.wf(),
    ensures
        r@ == rendered(*d),
{
    let ghost ds = digit_chars(d.digits@);
    let mut out = String::new();
    if d.negative {
        push_char(&mut out, '-');
    }
    let ghost sign = out@;
    let n = d.digits.len();
    let ghost ip = integer_part(ds, d.scale as int);
    let ghost fp = fraction_part(ds, d.scale as int);
    assert(ds.len() == n);
    if d.scale <= 0 {
        push_digits(&mut out, &d.digits, 0, n);
        push_zeros(&mut out, (0 - (d.scale as i128)) as u64);
        assert(ds.subrange(0, n as int) =~= ds);
        assert(out@ =~= sign + ip);
        assert(fp.len() == 0);
        assert(plain_text(d.negative, ip, fp) =~= sign + ip);
    } else if (d.scale as u64) < (n as u64) {
        let split = n - d.scale as usize;
        push_digits(&mut out, &d.digits, 0, split);
        push_char(&mut out, '.');
        push_digits(&mut out, &d.digits, split, n);
        assert(ds.subrange(0, split as int) =~= ip);
        assert(ds.subrange(split as int, n as int) =~= fp);
        assert(out@ =~= sign + ip + (seq!['.'] + fp));
        assert(fp.len() > 0);
    } else {
        push_char(&mut out, '0');
        push_char(&mut out, '.');
        push_zeros(&mut out, (d.scale as u64) - (n as u64));
        push_digits(&mut out, &d.digits, 0, n);
        assert(ds.subrange(0, n as int) =~= ds);
        assert(ip =~= seq!['0']);
        assert(out@ =~= sign + ip + (seq!['.'] + fp));
        assert(fp.len() > 0);
    }
    out
}

} // verus!
