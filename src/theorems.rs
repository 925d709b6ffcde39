//! Laws relating the operations, stated over the outcomes that their contracts
//! give. Where a law spans two operations, the value the first one wrote is
//! taken as read back by the second as its mantissa at scale 18:
//! `rendering_round_trip` shows that the written text is in plain notation, and
//! `parse_big` states that such a text is read digit for digit.
use vstd::prelude::*;
use crate::bignum::{all_digit_chars, plain_text};
use crate::codec::{
    fraction_part, integer_part, normalized_mantissa, precision_violation, render_value,
    PrecisionLimit, MAX_SCALE,
};
use crate::engine::{
    canonical_outcome, combined, current_value, decimal_read, parsed_value, set_outcome, step_outcome, Failure,
};
use crate::model::{
    abs_of, at_scale, chars_value, decimal_digits, digit_chars, digit_count,
    lemma_chars_value_concat, lemma_decimal_digits, lemma_digit_chars_value, lemma_zeros_value,
    max_int, pow10, same_value, zeros,
};

verus! {

/// The result of an increment (or decrement) from a current value already read.
pub open spec fn step_from(current: (int, int), operand: (int, int), subtract: bool) -> Result<
    int,
    Failure,
> {
    canonical_outcome(combined(current, operand, subtract))
}

proof fn lemma_at_own_scale(m: int)
    ensures
        at_scale(m, MAX_SCALE as int, MAX_SCALE as int) == m,
{
    assert(((MAX_SCALE as int - MAX_SCALE as int) as nat) == 0nat);
    assert(pow10(0) == 1);
    assert(m * 1 == m);
}

/// Incrementing by a zero operand leaves the current value as it was, rescaled
/// to 18 places.
pub proof fn increment_by_zero(stored: Option<Seq<u8>>, t: Seq<char>)
    requires
        parsed_value(t) is Ok,
        parsed_value(t)->Ok_0.0 == 0,
    ensures
        step_outcome(stored, t, false) == match current_value(stored) {
            Err(e) => Err(e),
            Ok(c) => canonical_outcome(at_scale(c.0, c.1, MAX_SCALE as int)),
        },
{
    let o = parsed_value(t)->Ok_0;
    assert(at_scale(o.0, o.1, MAX_SCALE as int) == 0);
}

/// On a key that held nothing, incrementing by `a` then by `b` ends at the
/// same value as incrementing by `b` then by `a`, where both first steps
/// succeed.
pub proof fn increments_commute(ta: Seq<char>, tb: Seq<char>)
    requires
        parsed_value(ta) is Ok,
        parsed_value(tb) is Ok,
        step_outcome(None, ta, false) is Ok,
        step_outcome(None, tb, false) is Ok,
    ensures
        step_from(
            (step_outcome(None, ta, false)->Ok_0, MAX_SCALE as int),
            parsed_value(tb)->Ok_0,
            false,
        ) == step_from(
            (step_outcome(None, tb, false)->Ok_0, MAX_SCALE as int),
            parsed_value(ta)->Ok_0,
            false,
        ),
{
    let na = step_outcome(None, ta, false)->Ok_0;
    let nb = step_outcome(None, tb, false)->Ok_0;
    lemma_at_own_scale(na);
    lemma_at_own_scale(nb);
    assert(at_scale(0, 0, MAX_SCALE as int) == 0);
}

/// Incrementing by an operand and then decrementing by it restores the value
/// held before, at 18 places, where the increment succeeds and that value fits
/// the bounds at 18 places.
pub proof fn increment_then_decrement(current: (int, int), t: Seq<char>)
    requires
        precision_violation(current.0, current.1) is None,
        parsed_value(t) is Ok,
        step_from(current, parsed_value(t)->Ok_0, false) is Ok,
        canonical_outcome(at_scale(current.0, current.1, MAX_SCALE as int)) is Ok,
    ensures
        step_from(
            (step_from(current, parsed_value(t)->Ok_0, false)->Ok_0, MAX_SCALE as int),
            parsed_value(t)->Ok_0,
            true,
        ) == Ok::<int, Failure>(at_scale(current.0, current.1, MAX_SCALE as int)),
{
    let n = step_from(current, parsed_value(t)->Ok_0, false)->Ok_0;
    lemma_at_own_scale(n);
}

/// A value with 52 digits at scale 18 is set as it is; one more digit, or one
/// more fraction place, is refused with a precision failure.
pub proof fn precision_boundary(t: Seq<char>, m: int, s: int)
    requires
        decimal_read(t) == Some((m, s)),
    ensures
        s == 18 && digit_count(abs_of(m)) == 52 ==> set_outcome(t) == Ok::<int, Failure>(m),
        s == 18 && digit_count(abs_of(m)) == 53 ==> set_outcome(t) == Err::<int, Failure>(
            Failure::Precision { limit: PrecisionLimit::Digits { digits: 53 } },
        ),
        s == 19 ==> set_outcome(t) == Err::<int, Failure>(
            Failure::Precision { limit: PrecisionLimit::Scale { scale: 19 } },
        ),
{
    lemma_at_own_scale(m);
    assert(normalized_mantissa(m, 18) == m);
}

/// The canonical text of every value is in plain notation (the form the parser
/// reads digit for digit), and the digits it shows, with as many fraction places
/// as it shows, denote that same value: rendering then parsing gives back the
/// number.
pub proof fn rendering_round_trip(m: int, s: int)
    ensures
        ({
            let ds = digit_chars(decimal_digits(abs_of(m)));
            let ip = integer_part(ds, s);
            let fp = fraction_part(ds, s);
            let v = chars_value(ip + fp) as int;
            &&& render_value(m, s) == plain_text(m < 0, ip, fp)
            &&& all_digit_chars(ip)
            &&& fp.len() == 0 || all_digit_chars(fp)
            &&& (m < 0) == (m < 0 && v != 0)
            &&& same_value(if m < 0 { -v } else { v }, fp.len() as int, m, s)
        }),
{
    let a = abs_of(m);
    let dd = decimal_digits(a);
    lemma_decimal_digits(a);
    lemma_digit_chars_value(dd);
    let ds = digit_chars(dd);
    let ip = integer_part(ds, s);
    let fp = fraction_part(ds, s);
    let v = chars_value(ip + fp) as int;
    assert(ds.len() == dd.len());
    assert(a == if m < 0 { -m } else { m });
    assert(render_value(m, s) == plain_text(m < 0, ip, fp));
    if s <= 0 {
        let z = zeros((-s) as nat);
        lemma_chars_value_concat(ds, z);
        lemma_zeros_value((-s) as nat);
        assert(ip + fp =~= ds + z);
        assert(v == a * pow10((-s) as nat));
        assert forall|i: int| 0 <= i < ip.len() implies crate::model::is_digit_char(
            #[trigger] ip[i],
        ) by {
            if i >= ds.len() {
                assert(ip[i] == z[i - ds.len()]);
            }
        }
        assert(max_int(0, s) == 0);
        assert(at_scale(v, 0, 0) == v) by {
            assert(((0int - 0int) as nat) == 0nat);
            assert(pow10(0) == 1);
            assert(v * 1 == v);
        }
        let p = pow10((-s) as nat) as int;
        assert(at_scale(m, s, 0) == m * p);
        crate::model::lemma_pow10_positive((-s) as nat);
        if m < 0 {
            assert(a * p > 0) by (nonlinear_arith)
                requires
                    a > 0,
                    p >= 1,
            ;
            assert(-(a * p) == m * p) by (nonlinear_arith)
                requires
                    a == -m,
            ;
        }
    } else if s < ds.len() {
        let cut = ds.len() - s;
        assert(ip + fp =~= ds);
        assert(v == a);
        assert(fp.len() == s);
        assert forall|i: int| 0 <= i < ip.len() implies crate::model::is_digit_char(
            #[trigger] ip[i],
        ) by {
            assert(ip[i] == ds[i]);
        }
        assert forall|i: int| 0 <= i < fp.len() implies crate::model::is_digit_char(
            #[trigger] fp[i],
        ) by {
            assert(fp[i] == ds[i + cut]);
        }
    } else {
        let z = zeros((s - ds.len()) as nat);
        let head = seq!['0'] + z;
        assert(ip + fp =~= head + ds);
        lemma_chars_value_concat(head, ds);
        lemma_chars_value_concat(seq!['0'], z);
        lemma_zeros_value((s - ds.len()) as nat);
        assert(seq!['0'].drop_last().len() == 0);
        assert(chars_value(seq!['0'].drop_last()) == 0);
        assert(seq!['0'].last() == '0');
        assert(('0' as u32) == 48);
        assert(('0' as int) == 48);
        assert(chars_value(seq!['0']) == 0);
        let pz = pow10(z.len()) as int;
        assert(0 * pz == 0) by (nonlinear_arith);
        assert(chars_value(head) == 0);
        let pd = pow10(ds.len()) as int;
        assert(0 * pd == 0) by (nonlinear_arith);
        assert(v == a);
        assert(fp.len() == s);
        assert forall|i: int| 0 <= i < fp.len() implies crate::model::is_digit_char(
            #[trigger] fp[i],
        ) by {
            if i >= z.len() {
                assert(fp[i] == ds[i - z.len()]);
            }
        }
    }
    assert(all_digit_chars(ip));
    assert(fp.len() == 0 || all_digit_chars(fp));
    assert(m < 0 ==> v != 0);
    assert(same_value(if m < 0 { -v } else { v }, fp.len() as int, m, s));
}

} // verus!
