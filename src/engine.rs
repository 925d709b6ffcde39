//! The four operations on a key: get, set, increment and decrement.
//!
//! The store is outside this library: the caller reads the bytes held at the
//! key, hands them in, and writes back the text an operation returns. The
//! read-modify-write of increment and decrement is atomic only where the host
//! runs the operations on one key one at a time, as a single-threaded command
//! loop does; without that guarantee two increments can lose an update.
use vstd::prelude::*;
use vstd::utf8::{decode_utf8, valid_utf8};
use crate::bignum::{add_big, all_digit_chars, decimal_parse, parse_big, plain_text, sub_big};
use crate::codec::{
    expand_exponent, expanded, lemma_rendered_value, normalized_mantissa, precision_violation, render, render_value,
    round_decimal, validate_precision, PrecisionLimit, MAX_SCALE,
};
use crate::decimal::Decimal;
use crate::model::{at_scale, chars_value, is_digit_char, lemma_at_scale_lift, max_int};

verus! {

/// Why an operation failed.
#[derive(Debug, PartialEq, Eq)]
pub enum DecimalError {
    /// The command came with the wrong number of arguments.
    Arity { expected: usize, given: usize },
    /// The text is not a decimal number.
    Parse { text: String },
    /// A value, given or computed, breaks the precision bounds.
    Precision { limit: PrecisionLimit },
    /// The bytes stored at the key are not valid UTF-8.
    Encoding,
}

/// A failure as the contracts speak of it.
pub enum Failure {
    Arity { expected: nat, given: nat },
    Parse { text: Seq<char> },
    Precision { limit: PrecisionLimit },
    Encoding,
}

impl View for DecimalError {
    type V = Failure;

    open spec fn view(&self) -> Failure {
        match self {
            DecimalError::Arity { expected, given } => Failure::Arity {
                expected: *expected as nat,
                given: *given as nat,
            },
            DecimalError::Parse { text } => Failure::Parse { text: text@ },
            DecimalError::Precision { limit } => Failure::Precision { limit: *limit },
            DecimalError::Encoding => Failure::Encoding,
        }
    }
}

/// Fails with `Arity` unless the command came with the expected number of
/// arguments (the command name included).
pub fn check_arity(given: usize, expected: usize) -> (r: Result<(), DecimalError>)
    ensures
        given == expected ==> r is Ok,
        given != expected ==> r is Err && r->Err_0@ == (Failure::Arity {
            expected: expected as nat,
            given: given as nat,
        }),
{
    if given != expected {
        return Err(DecimalError::Arity { expected, given });
    }
    Ok(())
}

/// The mantissa and scale a text is read as: none where it holds a `_`, which
/// would group digits, else what the decimal parser makes of it.
pub open spec fn decimal_read(t: Seq<char>) -> Option<(int, int)> {
    if t.contains('_') {
        None
    } else {
        decimal_parse(t)
    }
}

/// A text read as a decimal, checked against the precision bounds, with a
/// negative exponent written out.
pub open spec fn parsed_value(t: Seq<char>) -> Result<(int, int), Failure> {
    match decimal_read(t) {
        None => Err(Failure::Parse { text: t }),
        Some((m, s)) => match precision_violation(m, s) {
            Some(l) => Err(Failure::Precision { limit: l }),
            None => Ok(expanded(m, s)),
        },
    }
}

/// The value held in stored bytes: decoded as UTF-8, then read as a decimal.
pub open spec fn stored_value(b: Seq<u8>) -> Result<(int, int), Failure> {
    if valid_utf8(b) {
        parsed_value(decode_utf8(b))
    } else {
        Err(Failure::Encoding)
    }
}

/// The bytes a caller found at the key, if any.
pub open spec fn stored_bytes(stored: Option<&[u8]>) -> Option<Seq<u8>> {
    match stored {
        Some(b) => Some(b@),
        None => None,
    }
}

/// What a get returns: nothing for an absent key, else the stored value.
pub open spec fn get_outcome(stored: Option<Seq<u8>>) -> Result<Option<(int, int)>, Failure> {
    match stored {
        None => Ok(None),
        Some(b) => match stored_value(b) {
            Ok(v) => Ok(Some(v)),
            Err(e) => Err(e),
        },
    }
}

/// A value at the canonical scale, checked against the precision bounds.
pub open spec fn canonical_outcome(n: int) -> Result<int, Failure> {
    match precision_violation(n, MAX_SCALE as int) {
        Some(l) => Err(Failure::Precision { limit: l }),
        None => Ok(n),
    }
}

/// What a set writes and returns: the given value at the canonical scale.
pub open spec fn set_outcome(t: Seq<char>) -> Result<int, Failure> {
    match parsed_value(t) {
        Err(e) => Err(e),
        Ok((m, s)) => canonical_outcome(normalized_mantissa(m, s)),
    }
}

/// The current value of a key: zero where it holds nothing.
pub open spec fn current_value(stored: Option<Seq<u8>>) -> Result<(int, int), Failure> {
    match stored {
        None => Ok((0, 0)),
        Some(b) => stored_value(b),
    }
}

/// The exact sum, or difference, of two values with scales up to 18, as a
/// mantissa at scale 18.
pub open spec fn combined(current: (int, int), operand: (int, int), subtract: bool) -> int {
    let c = at_scale(current.0, current.1, MAX_SCALE as int);
    let o = at_scale(operand.0, operand.1, MAX_SCALE as int);
    if subtract {
        c - o
    } else {
        c + o
    }
}

/// What an increment (or, with `subtract`, a decrement) writes and returns: the
/// operand is read first, then the current value, then the result is checked.
pub open spec fn step_outcome(stored: Option<Seq<u8>>, t: Seq<char>, subtract: bool) -> Result<
    int,
    Failure,
> {
    match parsed_value(t) {
        Err(e) => Err(e),
        Ok(operand) => match current_value(stored) {
            Err(e) => Err(e),
            Ok(current) => canonical_outcome(combined(current, operand, subtract)),
        },
    }
}

/// `r` is the canonical text of the value `o` gives at scale 18, or its failure.
pub open spec fn text_outcome(r: Result<String, DecimalError>, o: Result<int, Failure>) -> bool {
    match o {
        Ok(n) => r is Ok && r->Ok_0@ == render_value(n, MAX_SCALE as int),
        Err(e) => r is Err && r->Err_0@ == e,
    }
}

/// Relies on `std::str::from_utf8`: it accepts exactly the valid UTF-8 byte
/// strings, and the text it gives is their decoding.
#[verifier::external_body]
fn decode_text<'a>(b: &'a [u8]) -> (r: Option<&'a str>)
    ensures
        match r {
            Some(s) => valid_utf8(b@) && s@ == decode_utf8(b@),
            None => !valid_utf8(b@),
        },
{
    std::str::from_utf8(b).ok()
}

/// Relies on `str::contains` with a `char` pattern: whether the text holds the
/// character.
#[verifier::external_body]
fn contains_char(t: &str, c: char) -> (r: bool)
    ensures
        r == t@.contains(c),
{
    t.contains(c)
}

/// A text in plain notation holds no `_`.
proof fn lemma_plain_has_no_underscore(neg: bool, ip: Seq<char>, fp: Seq<char>)
    requires
        all_digit_chars(ip),
        fp.len() == 0 || all_digit_chars(fp),
    ensures
        !plain_text(neg, ip, fp).contains('_'),
{
    let t = plain_text(neg, ip, fp);
    let sign = if neg {
        seq!['-']
    } else {
        Seq::<char>::empty()
    };
    let frac = if fp.len() > 0 {
        seq!['.'] + fp
    } else {
        Seq::<char>::empty()
    };
    assert forall|i: int| 0 <= i < t.len() implies t[i] != '_' by {
        if i < sign.len() {
            assert(t[i] == sign[i]);
        } else if i < sign.len() + ip.len() {
            assert(t[i] == ip[i - sign.len()]);
            assert(is_digit_char(ip[i - sign.len()]));
        } else {
            let j = i - sign.len() - ip.len();
            assert(t[i] == frac[j]);
            if j > 0 {
                assert(frac[j] == fp[j - 1]);
                assert(is_digit_char(fp[j - 1]));
            }
        }
    }
}

/// Reads a text as a decimal, without checking its precision. A text holding a
/// `_` is refused: digits are not grouped. A text in plain notation (an
/// optional minus sign, digits, and a point followed by digits where there is a
/// fraction) is read digit for digit, its scale the count of fraction digits.
pub fn parse_decimal(t: &str) -> (r: Result<Decimal, DecimalError>)
    ensures
        match r {
            Ok(d) => d.wf() && decimal_read(t@) == Some((d.mantissa(), d.scale as int)),
            Err(e) => decimal_read(t@) is None && e@ == (Failure::Parse { text: t@ }),
        },
        t@.len() == 0 ==> r is Err,
        forall|neg: bool, ip: Seq<char>, fp: Seq<char>|
            #![trigger plain_text(neg, ip, fp)]
            t@ == plain_text(neg, ip, fp) && all_digit_chars(ip) && (fp.len() == 0
                || all_digit_chars(fp)) ==> {
                &&& r is Ok
                &&& r->Ok_0.magnitude() == chars_value(ip + fp)
                &&& r->Ok_0.scale == fp.len()
                &&& r->Ok_0.negative == (neg && chars_value(ip + fp) != 0)
            },
{
    if contains_char(t, '_') {
        proof {
            assert forall|neg: bool, ip: Seq<char>, fp: Seq<char>|
                t@ == plain_text(neg, ip, fp) && all_digit_chars(ip) && (fp.len() == 0
                    || all_digit_chars(fp)) implies false by {
                lemma_plain_has_no_underscore(neg, ip, fp);
            }
        }
        return Err(DecimalError::Parse { text: t.to_owned() });
    }
    match parse_big(t) {
        Ok(d) => Ok(d),
        Err(_) => Err(DecimalError::Parse { text: t.to_owned() }),
    }
}

/// Reads a text as a decimal, checks it against the precision bounds, and
/// writes out a negative exponent.
fn parse_checked(t: &str) -> (r: Result<Decimal, DecimalError>)
    ensures
        match parsed_value(t@) {
            Ok(v) => r is Ok && r->Ok_0.wf() && v == (r->Ok_0.mantissa(), r->Ok_0.scale as int)
                && 0 <= r->Ok_0.scale <= MAX_SCALE,
            Err(e) => r is Err && r->Err_0@ == e,
        },
{
    let d = parse_decimal(t)?;
    match validate_precision(&d) {
        Ok(()) => Ok(expand_exponent(d)),
        Err(limit) => Err(DecimalError::Precision { limit }),
    }
}

/// Reads the value held in stored bytes.
fn read_stored(b: &[u8]) -> (r: Result<Decimal, DecimalError>)
    ensures
        match stored_value(b@) {
            Ok(v) => r is Ok && r->Ok_0.wf() && v == (r->Ok_0.mantissa(), r->Ok_0.scale as int)
                && 0 <= r->Ok_0.scale <= MAX_SCALE,
            Err(e) => r is Err && r->Err_0@ == e,
        },
{
    match decode_text(b) {
        Some(t) => parse_checked(t),
        None => Err(DecimalError::Encoding),
    }
}

/// Checks a value at the canonical scale and renders it.
fn finish(d: &Decimal) -> (r: Result<String, DecimalError>)
    requires
        d.wf(),
        d.scale == MAX_SCALE,
    ensures
        text_outcome(r, canonical_outcome(d.mantissa())),
{
    match validate_precision(d) {
        Ok(()) => {
            proof {
                lemma_rendered_value(*d);
            }
            Ok(render(d))
        },
        Err(limit) => Err(DecimalError::Precision { limit }),
    }
}

/// GET: the canonical text of the value stored at a key, or nothing where the
/// key holds no value. Nothing is written.
pub fn getdecimal(stored: Option<&[u8]>) -> (r: Result<Option<String>, DecimalError>)
    ensures
        match get_outcome(stored_bytes(stored)) {
            Ok(None) => r matches Ok(None),
            Ok(Some((m, s))) => r is Ok && r->Ok_0 is Some && r->Ok_0->Some_0@ == render_value(m, s),
            Err(e) => r is Err && r->Err_0@ == e,
        },
{
    match stored {
        None => Ok(None),
        Some(b) => {
            let d = read_stored(b)?;
            proof {
                lemma_rendered_value(d);
            }
            Ok(Some(render(&d)))
        },
    }
}

/// SET: the canonical text to write at the key and to return; nothing is to be
/// written where it fails.
pub fn setdecimal(input: &str) -> (r: Result<String, DecimalError>)
    ensures
        text_outcome(r, set_outcome(input@)),
{
    let d = parse_checked(input)?;
    let n = round_decimal(&d);
    finish(&n)
}

/// The shared read-modify-write of increment and decrement.
fn step(stored: Option<&[u8]>, input: &str, subtract: bool) -> (r: Result<String, DecimalError>)
    ensures
        text_outcome(r, step_outcome(stored_bytes(stored), input@, subtract)),
{
    let operand = parse_checked(input)?;
    let current = match stored {
        Some(b) => read_stored(b)?,
        None => Decimal::zero(),
    };
    let ghost k = max_int(current.scale as int, operand.scale as int);
    let sum = if subtract {
        sub_big(&current, &operand)
    } else {
        add_big(&current, &operand)
    };
    let n = round_decimal(&sum);
    proof {
        lemma_at_scale_lift(sum.mantissa(), sum.scale as int, k, MAX_SCALE as int);
        lemma_at_scale_lift(current.mantissa(), current.scale as int, k, MAX_SCALE as int);
        lemma_at_scale_lift(operand.mantissa(), operand.scale as int, k, MAX_SCALE as int);
        let p = crate::model::pow10((MAX_SCALE - k) as nat) as int;
        assert((current.at(k) + operand.at(k)) * p == current.at(k) * p + operand.at(k) * p)
            by (nonlinear_arith);
        assert((current.at(k) - operand.at(k)) * p == current.at(k) * p - operand.at(k) * p)
            by (nonlinear_arith);
    }
    finish(&n)
}

/// INCRBY: the current value (zero for an absent key) plus the operand, at
/// the canonical scale; the text to write at the key and to return.
pub fn incrbydecimal(stored: Option<&[u8]>, input: &str) -> (r: Result<String, DecimalError>)
    ensures
        text_outcome(r, step_outcome(stored_bytes(stored), input@, false)),
{
    step(stored, input, false)
}

/// DECRBY: the current value (zero for an absent key) minus the operand, at
/// the canonical scale; the text to write at the key and to return.
pub fn decrbydecimal(stored: Option<&[u8]>, input: &str) -> (r: Result<String, DecimalError>)
    ensures
        text_outcome(r, step_outcome(stored_bytes(stored), input@, true)),
{
    step(stored, input, true)
}

} // verus!
