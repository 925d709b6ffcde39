//! The decimal value: a signed mantissa of decimal digits and a scale.
use vstd::prelude::*;
use crate::model::{
    at_scale, canonical_digits, digit_count, digits_value, lemma_canonical_digit_count,
};

verus! {

/// The exact number `mantissa * 10^-scale`, the mantissa held as its sign and
/// its decimal digits, most significant first.
#[derive(Debug, PartialEq, Eq)]
pub struct Decimal {
    pub negative: bool,
    pub digits: Vec<u8>,
    pub scale: i64,
}

impl Decimal {
    /// The digits are canonical and zero carries no sign.
    pub open spec fn wf(&self) -> bool {
        &&& canonical_digits(self.digits@)
        &&& self.negative ==> digits_value(self.digits@) != 0
    }

    /// The magnitude of the mantissa.
    pub open spec fn magnitude(&self) -> nat {
        digits_value(self.digits@)
    }

    /// The signed mantissa.
    pub open spec fn mantissa(&self) -> int {
        if self.negative {
            -(self.magnitude() as int)
        } else {
            self.magnitude() as int
        }
    }

    /// The value as a mantissa at scale `k`, for `k` no less than the scale.
    pub open spec fn at(&self, k: int) -> int {
        at_scale(self.mantissa(), self.scale as int, k)
    }

    /// Zero, at scale zero.
    pub fn zero() -> (r: Decimal)
        ensures
            r.wf(),
            r.mantissa() == 0,
            r.scale == 0,
    {
        let r = Decimal { negative: false, digits: vec![0u8], scale: 0 };
        proof {
            assert(r.digits@.drop_last().len() == 0);
            assert(digits_value(r.digits@.drop_last()) == 0);
        }
        r
    }

    /// The number of digits of the mantissa.
    pub fn digit_count(&self) -> (r: usize)
        requires
            self.wf(),
        ensures
            r == digit_count(self.magnitude()),
    {
        proof {
            lemma_canonical_digit_count(self.digits@);
        }
        self.digits.len()
    }
}

} // verus!
