//! Dimensions that may depend on the stream: an axis whose size is known
//! only when the model runs.

use vstd::prelude::*;

verus! {

/// A dimension: `slope * S + offset`, where `S` is the one stream symbol.
/// With slope 0 it is the constant `offset`. Two dimensions are equal where
/// they agree for every `S`, that is where both fields agree.
#[derive(Clone, Copy, Debug, PartialEq, Eq, Structural, Hash)]
pub struct TDim {
    pub slope: i64,
    pub offset: i64,
}

impl TDim {
    /// The dimension's value once the stream symbol is `s`.
    pub open spec fn value_at(self, s: int) -> int {
        self.slope * s + self.offset
    }

    /// The sum of two dimensions, in unbounded integers.
    pub open spec fn plus(self, other: TDim) -> (int, int) {
        (self.slope + other.slope, self.offset + other.offset)
    }

    /// The difference of two dimensions, in unbounded integers.
    pub open spec fn minus(self, other: TDim) -> (int, int) {
        (self.slope - other.slope, self.offset - other.offset)
    }

    /// The product with a constant, in unbounded integers.
    pub open spec fn times(self, k: i64) -> (int, int) {
        (self.slope * k, self.offset * k)
    }

    /// The dimension with these two coefficients, where both fit.
    pub open spec fn fitting(c: (int, int)) -> Option<TDim> {
        if i64::MIN <= c.0 <= i64::MAX && i64::MIN <= c.1 <= i64::MAX {
            Some(TDim { slope: c.0 as i64, offset: c.1 as i64 })
        } else {
            None
        }
    }

    /// The constant dimension `v`.
    pub fn constant(v: i64) -> (r: TDim)
        ensures
            r == (TDim { slope: 0, offset: v }),
    {
        TDim { slope: 0, offset: v }
    }

    /// The stream symbol itself.
    pub fn stream() -> (r: TDim)
        ensures
            r == (TDim { slope: 1, offset: 0 }),
    {
        TDim { slope: 1, offset: 0 }
    }

    /// The constant dimension `v`, where `v` fits.
    pub fn from_usize(v: usize) -> (r: Option<TDim>)
        ensures
            r == (if v <= i64::MAX {
                Some(TDim { slope: 0, offset: v as i64 })
            } else {
                None
            }),
    {
        if v as u64 <= i64::MAX as u64 {
            Some(TDim { slope: 0, offset: v as i64 })
        } else {
            None
        }
    }

    /// Whether the dimension depends on the stream.
    pub fn is_stream(&self) -> (r: bool)
        ensures
            r == (self.slope != 0),
    {
        self.slope != 0
    }

    /// The dimension's value, where it does not depend on the stream.
    pub fn as_const(&self) -> (r: Option<i64>)
        ensures
            r == (if self.slope == 0 {
                Some(self.offset)
            } else {
                None
            }),
    {
        if self.slope == 0 {
            Some(self.offset)
        } else {
            None
        }
    }

    /// The dimension's value for the stream symbol `s`, where it fits.
    pub fn eval(&self, s: i64) -> (r: Option<i64>)
        ensures
            r == (if i64::MIN <= self.value_at(s as int) <= i64::MAX {
                Some(self.value_at(s as int) as i64)
            } else {
                None
            }),
    {
        assert(-0x4000_0000_0000_0000_0000_0000_0000_0000 <= (self.slope as int) * (s as int)
            <= 0x4000_0000_0000_0000_0000_0000_0000_0000) by (nonlinear_arith)
            requires
                -0x8000_0000_0000_0000 <= self.slope as int <= 0x8000_0000_0000_0000,
                -0x8000_0000_0000_0000 <= s as int <= 0x8000_0000_0000_0000,
        ;
        let wide: i128 = (self.slope as i128) * (s as i128) + (self.offset as i128);
        if wide >= i64::MIN as i128 && wide <= i64::MAX as i128 {
            Some(wide as i64)
        } else {
            None
        }
    }

    /// The sum, where its coefficients fit.
    pub fn checked_add(&self, other: &TDim) -> (r: Option<TDim>)
        ensures
            r == Self::fitting(self.plus(*other)),
    {
        match (self.slope.checked_add(other.slope), self.offset.checked_add(other.offset)) {
            (Some(slope), Some(offset)) => Some(TDim { slope, offset }),
            _ => None,
        }
    }

    /// The difference, where its coefficients fit.
    pub fn checked_sub(&self, other: &TDim) -> (r: Option<TDim>)
        ensures
            r == Self::fitting(self.minus(*other)),
    {
        match (self.slope.checked_sub(other.slope), self.offset.checked_sub(other.offset)) {
            (Some(slope), Some(offset)) => Some(TDim { slope, offset }),
            _ => None,
        }
    }

    /// The product with the constant `k`, where its coefficients fit.
    pub fn checked_mul(&self, k: i64) -> (r: Option<TDim>)
        ensures
            r == Self::fitting(self.times(k)),
    {
        match (self.slope.checked_mul(k), self.offset.checked_mul(k)) {
            (Some(slope), Some(offset)) => Some(TDim { slope, offset }),
            _ => None,
        }
    }
}

/// Dimensions that agree for the stream symbols 0 and 1 are the same
/// dimension: equality of the coefficients is equality of the values.
pub proof fn lemma_equal_values_equal_dims(a: TDim, b: TDim)
    requires
        a.value_at(0) == b.value_at(0),
        a.value_at(1) == b.value_at(1),
    ensures
        a == b,
{
}

/// Sum, difference and product by a constant act on the values, whatever the
/// stream symbol turns out to be.
pub proof fn lemma_arithmetic_on_values(a: TDim, b: TDim, k: i64, s: int)
    ensures
        TDim::fitting(a.plus(b)) matches Some(c) ==> c.value_at(s) == a.value_at(s) + b.value_at(s),
        TDim::fitting(a.minus(b)) matches Some(c) ==> c.value_at(s) == a.value_at(s) - b.value_at(s),
        TDim::fitting(a.times(k)) matches Some(c) ==> c.value_at(s) == a.value_at(s) * k,
{
    assert((a.slope + b.slope) * s == a.slope * s + b.slope * s) by (nonlinear_arith);
    assert((a.slope - b.slope) * s == a.slope * s - b.slope * s) by (nonlinear_arith);
    assert((a.slope * k) * s + a.offset * k == (a.slope * s + a.offset) * k) by (nonlinear_arith);
}

} // verus!
