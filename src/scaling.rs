use vstd::prelude::*;
use crate::error::EdfError;

verus! {

/// The smallest digital code of a 16-bit sample.
pub const EDF_DIGITAL_MIN: i32 = -32768;
/// The largest digital code of a 16-bit sample.
pub const EDF_DIGITAL_MAX: i32 = 32767;
/// The smallest digital code of a 24-bit sample.
pub const BDF_DIGITAL_MIN: i32 = -8388608;
/// The largest digital code of a 24-bit sample.
pub const BDF_DIGITAL_MAX: i32 = 8388607;
/// The smallest physical bound that fits the header's eight-character field.
pub const PHYSICAL_LIMIT_MIN: i32 = -9999999;
/// The largest physical bound that fits the header's eight-character field.
pub const PHYSICAL_LIMIT_MAX: i32 = 99999999;

/// A physical value, held exactly as the fraction `num / den`.
#[derive(Debug, Clone, Copy, PartialEq, Eq, Structural)]
pub struct Physical {
    pub num: i64,
    pub den: i64,
}

impl Physical {
    /// The fractions that the scaling engine accepts.
    pub open spec fn valid(self) -> bool {
        0 < self.den <= 0x8000_0000 && -0x4000_0000_0000_0000 <= self.num <= 0x4000_0000_0000_0000
    }

    /// The whole number `v`.
    pub fn whole(v: i32) -> (r: Physical)
        ensures
            r.num == v,
            r.den == 1,
            r.valid(),
    {
        Physical { num: v as i64, den: 1 }
    }
}

/// The linear map between a signal's digital codes and its physical values.
#[derive(Debug, Clone, Copy, PartialEq, Eq, Structural)]
pub struct Scaling {
    pub dig_min: i32,
    pub dig_max: i32,
    pub phys_min: i32,
    pub phys_max: i32,
}

/// Whether `v` is a digital code that a 24-bit sample can hold.
pub open spec fn in_bdf_range(v: int) -> bool {
    BDF_DIGITAL_MIN <= v <= BDF_DIGITAL_MAX
}

/// Whether `v` is a physical bound that the header can hold.
pub open spec fn in_physical_limits(v: int) -> bool {
    PHYSICAL_LIMIT_MIN <= v <= PHYSICAL_LIMIT_MAX
}

impl Scaling {
    pub open spec fn wf(self) -> bool {
        in_bdf_range(self.dig_min as int) && in_bdf_range(self.dig_max as int) && self.dig_min
            < self.dig_max && in_physical_limits(self.phys_min as int) && in_physical_limits(
            self.phys_max as int,
        ) && self.phys_min < self.phys_max
    }

    pub open spec fn digital_span(self) -> int {
        self.dig_max - self.dig_min
    }

    pub open spec fn physical_span(self) -> int {
        self.phys_max - self.phys_min
    }

    /// The numerator of the physical value of `code`, over the denominator `digital_span`:
    /// `phys_min + (code - dig_min) * gain`, with `gain = physical_span / digital_span`.
    pub open spec fn physical_num(self, code: int) -> int {
        self.phys_min * self.digital_span() + (code - self.dig_min) * self.physical_span()
    }

    /// The code nearest to `num / den`, halves rounded up:
    /// `floor((num / den - phys_min) / gain + dig_min + 1/2)`.
    pub open spec fn digital_of(self, num: int, den: int) -> int {
        (2 * (num - self.phys_min * den) * self.digital_span() + den * self.physical_span()) / (2
            * den * self.physical_span()) + self.dig_min
    }

    /// Builds the map from a digital range and a physical range.
    pub fn new(dig_min: i32, dig_max: i32, phys_min: i32, phys_max: i32) -> (r: Result<
        Scaling,
        EdfError,
    >)
        ensures
            dig_min == dig_max ==> r == Err::<Scaling, EdfError>(EdfError::ScalingDegenerate),
            dig_min != dig_max ==> match r {
                Ok(s) => s == (Scaling { dig_min, dig_max, phys_min, phys_max }) && s.wf(),
                Err(e) => e == EdfError::InvalidRange && !(Scaling {
                    dig_min,
                    dig_max,
                    phys_min,
                    phys_max,
                }).wf(),
            },
    {
        if dig_min == dig_max {
            return Err(EdfError::ScalingDegenerate);
        }
        if dig_min > dig_max || dig_min < BDF_DIGITAL_MIN || dig_max > BDF_DIGITAL_MAX || phys_min
            >= phys_max || phys_min < PHYSICAL_LIMIT_MIN || phys_max > PHYSICAL_LIMIT_MAX {
            return Err(EdfError::InvalidRange);
        }
        Ok(Scaling { dig_min, dig_max, phys_min, phys_max })
    }

    /// The physical value of a digital code, exactly.
    pub fn to_physical(&self, code: i32) -> (r: Physical)
        requires
            self.wf(),
            self.dig_min <= code <= self.dig_max,
        ensures
            r.num == self.physical_num(code as int),
            r.den == self.digital_span(),
            r.valid(),
    {
        let dd = self.dig_max as i64 - self.dig_min as i64;
        let pp = self.phys_max as i64 - self.phys_min as i64;
        let k = code as i64 - self.dig_min as i64;
        assert(0 < dd <= 0x100_0000);
        assert(0 < pp <= 0x800_0000);
        assert(0 <= k <= dd);
        assert(-0x80_0000_0000_0000 <= self.phys_min as i64 * dd <= 0x80_0000_0000_0000)
            by (nonlinear_arith)
            requires
                0 < dd <= 0x100_0000,
                -9999999 <= self.phys_min <= 99999999,
        ;
        assert(0 <= k * pp <= 0x80_0000_0000_0000) by (nonlinear_arith)
            requires
                0 <= k <= 0x100_0000,
                0 < pp <= 0x800_0000,
        ;
        Physical { num: self.phys_min as i64 * dd + k * pp, den: dd }
    }

    /// The digital code of a physical value: the nearest code, halves rounded up,
    /// or `OutOfRange` when that code lies outside the digital range.
    pub fn to_digital(&self, v: Physical) -> (r: Result<i32, EdfError>)
        requires
            self.wf(),
            v.valid(),
        ensures
            ({
                let c = self.digital_of(v.num as int, v.den as int);
                if self.dig_min <= c <= self.dig_max {
                    r == Ok::<i32, EdfError>(c as i32)
                } else {
                    r == Err::<i32, EdfError>(EdfError::OutOfRange)
                }
            }),
    {
        let dd = self.dig_max as i128 - self.dig_min as i128;
        let pp = self.phys_max as i128 - self.phys_min as i128;
        let den = v.den as i128;
        assert(0 < dd <= 0x100_0000);
        assert(0 < pp <= 0x800_0000);
        assert(-0x4000_0000_0000_0000 <= self.phys_min as i128 * den <= 0x4000_0000_0000_0000)
            by (nonlinear_arith)
            requires
                0 < den <= 0x8000_0000,
                -9999999 <= self.phys_min <= 99999999,
        ;
        let a = v.num as i128 - self.phys_min as i128 * den;
        assert(-0x1_0000_0000_0000_0000_0000_0000 <= 2 * a * dd <= 0x1_0000_0000_0000_0000_0000_0000)
            by (nonlinear_arith)
            requires
                -0x8000_0000_0000_0000 <= a <= 0x8000_0000_0000_0000,
                0 < dd <= 0x100_0000,
        ;
        assert(0 < den * pp <= 0x4000_0000_0000_0000) by (nonlinear_arith)
            requires
                0 < den <= 0x8000_0000,
                0 < pp <= 0x800_0000,
        ;
        let n2 = 2 * a * dd + den * pp;
        let d2 = 2 * (den * pp);
        assert(n2 == 2 * (v.num - self.phys_min * v.den) * self.digital_span() + v.den
            * self.physical_span());
        assert(d2 == 2 * v.den * self.physical_span()) by (nonlinear_arith)
            requires
                d2 == 2 * (den * pp),
                den == v.den,
                pp == self.physical_span(),
        ;
        if n2 < 0 {
            assert(n2 / d2 < 0) by (nonlinear_arith)
                requires
                    n2 < 0,
                    d2 > 0,
            ;
            return Err(EdfError::OutOfRange);
        }
        let q = (n2 as u128) / (d2 as u128);
        assert(q == n2 / d2);
        if q > dd as u128 {
            return Err(EdfError::OutOfRange);
        }
        Ok((self.dig_min as i128 + q as i128) as i32)
    }
}

/// Decoding the physical value of any code in range gives that code back, and the
/// extremes of the digital range map exactly onto the extremes of the physical range.
pub proof fn lemma_digital_physical_round_trip(s: Scaling, code: int)
    requires
        s.wf(),
        s.dig_min <= code <= s.dig_max,
    ensures
        s.digital_of(s.physical_num(code), s.digital_span()) == code,
        s.physical_num(s.dig_min as int) == s.phys_min * s.digital_span(),
        s.physical_num(s.dig_max as int) == s.phys_max * s.digital_span(),
{
    let dd = s.digital_span();
    let pp = s.physical_span();
    let k = code - s.dig_min;
    let num = s.physical_num(code);
    assert(num - s.phys_min * dd == k * pp);
    let d = dd * pp;
    assert(d > 0) by (nonlinear_arith)
        requires
            d == dd * pp,
            dd > 0,
            pp > 0,
    ;
    assert(2 * (num - s.phys_min * dd) * dd + dd * pp == k * (2 * d) + d) by (nonlinear_arith)
        requires
            num - s.phys_min * dd == k * pp,
            d == dd * pp,
    ;
    assert(2 * dd * pp == 2 * d) by (nonlinear_arith)
        requires
            d == dd * pp,
    ;
    vstd::arithmetic::div_mod::lemma_fundamental_div_mod_converse(k * (2 * d) + d, 2 * d, k, d);
    assert(s.physical_num(s.dig_max as int) == s.phys_min * dd + dd * pp);
    assert(s.phys_min * dd + dd * pp == s.phys_max * dd) by (nonlinear_arith)
        requires
            pp == s.phys_max - s.phys_min,
    ;
}

} // verus!
