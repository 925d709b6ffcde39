//! The calls into bigdecimal, each behind a wrapper whose contract states what
//! the crate's source shows, over the library's own `Decimal`.
use vstd::prelude::*;
use crate::decimal::Decimal;
use crate::model::{chars_value, is_digit_char, max_int, pow10};
use bigdecimal::num_bigint::{BigInt, Sign};
use bigdecimal::{BigDecimal, ParseBigDecimalError};
use std::str::FromStr;

verus! {

#[verifier::external_type_specification]
#[verifier::external_body]
pub struct ExParseBigDecimalError(ParseBigDecimalError);

/// What `BigDecimal::from_str` makes of a text: its mantissa and scale, or
/// nothing where the text is refused.
pub uninterp spec fn decimal_parse(s: Seq<char>) -> Option<(int, int)>;

/// A text in plain notation: an optional minus sign, the integer digits, and a
/// point followed by the fraction digits where there are any.
pub open spec fn plain_text(negative: bool, int_digits: Seq<char>, frac_digits: Seq<char>) -> Seq<
    char,
> {
    let sign = if negative {
        seq!['-']
    } else {
        Seq::<char>::empty()
    };
    let frac = if frac_digits.len() > 0 {
        seq!['.'] + frac_digits
    } else {
        Seq::<char>::empty()
    };
    sign + int_digits + frac
}

/// A non-empty run of ASCII digits.
pub open spec fn all_digit_chars(t: Seq<char>) -> bool {
    t.len() > 0 && forall|i: int| 0 <= i < t.len() ==> is_digit_char(#[trigger] t[i])
}

/// Relies on `BigDecimal::from_str` (bigdecimal's `from_str_radix`): it accepts
/// or refuses a text as a function of the text alone, and reads a text in plain
/// notation as the digits before and after the point, the scale being the count
/// of fraction digits. An empty text is refused. The result is taken apart with `into_bigint_and_scale`
/// and num-bigint's `to_radix_be`, which gives canonical base-ten digits.
#[verifier::external_body]
pub(crate) fn parse_big(s: &str) -> (r: Result<Decimal, ParseBigDecimalError>)
    ensures
        match r {
            Ok(d) => d.wf() && decimal_parse(s@) == Some((d.mantissa(), d.scale as int)),
            Err(_) => decimal_parse(s@) is None,
        },
        s@.len() == 0 ==> r is Err,
        forall|neg: bool, ip: Seq<char>, fp: Seq<char>|
            #![trigger plain_text(neg, ip, fp)]
            s@ == plain_text(neg, ip, fp) && all_digit_chars(ip) && (fp.len() == 0
                || all_digit_chars(fp)) ==> {
                &&& r is Ok
                &&& r->Ok_0.magnitude() == chars_value(ip + fp)
                &&& r->Ok_0.scale == fp.len()
                &&& r->Ok_0.negative == (neg && chars_value(ip + fp) != 0)
            },
{
    let (m, scale) = BigDecimal::from_str(s)?.into_bigint_and_scale();
    let (sign, digits) = m.to_radix_be(10);
    Ok(Decimal { negative: sign == Sign::Minus, digits, scale })
}

/// The gap between two scales fits the 64-bit arithmetic bigdecimal does on them.
pub open spec fn scales_close(a: int, b: int) -> bool {
    -0x7fff_ffff_ffff_ffff <= a - b <= 0x7fff_ffff_ffff_ffff
}

/// Relies on `Add for BigDecimal` (bigdecimal's `add_bigdecimals`): the exact
/// sum, at the scale of one of the two operands.
#[verifier::external_body]
pub(crate) fn add_big(a: &Decimal, b: &Decimal) -> (r: Decimal)
    requires
        a.wf(),
        b.wf(),
        scales_close(a.scale as int, b.scale as int),
    ensures
        r.wf(),
        r.scale == a.scale || r.scale == b.scale,
        r.at(max_int(a.scale as int, b.scale as int)) == a.at(max_int(a.scale as int, b.scale as int))
            + b.at(max_int(a.scale as int, b.scale as int)),
{
    let x = BigInt::from_radix_be(if a.negative { Sign::Minus } else { Sign::Plus }, &a.digits, 10);
    let y = BigInt::from_radix_be(if b.negative { Sign::Minus } else { Sign::Plus }, &b.digits, 10);
    let sum = BigDecimal::new(x.unwrap(), a.scale) + BigDecimal::new(y.unwrap(), b.scale);
    let (m, scale) = sum.into_bigint_and_scale();
    let (sign, digits) = m.to_radix_be(10);
    Decimal { negative: sign == Sign::Minus, digits, scale }
}

/// Relies on `Sub for BigDecimal`: the exact difference, at the scale of one of
/// the two operands.
#[verifier::external_body]
pub(crate) fn sub_big(a: &Decimal, b: &Decimal) -> (r: Decimal)
    requires
        a.wf(),
        b.wf(),
        scales_close(a.scale as int, b.scale as int),
    ensures
        r.wf(),
        r.scale == a.scale || r.scale == b.scale,
        r.at(max_int(a.scale as int, b.scale as int)) == a.at(max_int(a.scale as int, b.scale as int))
            - b.at(max_int(a.scale as int, b.scale as int)),
{
    let x = BigInt::from_radix_be(if a.negative { Sign::Minus } else { Sign::Plus }, &a.digits, 10);
    let y = BigInt::from_radix_be(if b.negative { Sign::Minus } else { Sign::Plus }, &b.digits, 10);
    let diff = BigDecimal::new(x.unwrap(), a.scale) - BigDecimal::new(y.unwrap(), b.scale);
    let (m, scale) = diff.into_bigint_and_scale();
    let (sign, digits) = m.to_radix_be(10);
    Decimal { negative: sign == Sign::Minus, digits, scale }
}

/// `m / p` rounded toward zero, as big-integer division rounds.
pub open spec fn div_toward_zero(m: int, p: int) -> int {
    if m >= 0 {
        m / p
    } else {
        -((-m) / p)
    }
}

/// Relies on `BigDecimal::with_scale`: at a larger scale the mantissa gains
/// trailing zeros; at a smaller one it is divided by the power of ten, rounding
/// toward zero; zero stays zero at any scale.
#[verifier::external_body]
pub(crate) fn with_scale_big(a: &Decimal, new_scale: i64) -> (r: Decimal)
    requires
        a.wf(),
        scales_close(new_scale as int, a.scale as int),
    ensures
        r.wf(),
        r.scale == new_scale,
        a.scale <= new_scale ==> r.mantissa() == a.at(new_scale as int),
        new_scale < a.scale ==> r.mantissa() == div_toward_zero(
            a.mantissa(),
            pow10((a.scale - new_scale) as nat) as int,
        ),
{
    let x = BigInt::from_radix_be(if a.negative { Sign::Minus } else { Sign::Plus }, &a.digits, 10);
    let (m, scale) = BigDecimal::new(x.unwrap(), a.scale).with_scale(new_scale).into_bigint_and_scale();
    let (sign, digits) = m.to_radix_be(10);
    Decimal { negative: sign == Sign::Minus, digits, scale }
}

} // verus!
