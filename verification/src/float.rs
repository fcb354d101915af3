//! Floating-point values as bit patterns, and the arithmetic that is done on them elsewhere.
use vstd::prelude::*;

verus! {

/// A single-precision IEEE 754 value, held by its bit pattern.
#[derive(Clone, Copy, Debug)]
pub struct Float32 {
    pub bits: u32,
}

/// A double-precision IEEE 754 value, held by its bit pattern.
#[derive(Clone, Copy, Debug)]
pub struct Float64 {
    pub bits: u64,
}

impl Float32 {
    /// The value is no number: its exponent field is all ones, and its fraction is not zero.
    pub open spec fn is_nan(self) -> bool {
        self.bits % 0x8000_0000 > 0x7f80_0000
    }

    /// The value is a zero, of either sign.
    pub open spec fn is_zero(self) -> bool {
        self.bits % 0x8000_0000 == 0
    }

    /// The value is neither infinite nor a NaN: its exponent field is not all ones.
    pub open spec fn finite(self) -> bool {
        (self.bits as int / 0x80_0000) % 0x100 != 0xff
    }

    /// The value `0.0`.
    pub open spec fn zero_value() -> Float32 {
        Float32 { bits: 0 }
    }

    /// The value `1.0`: exponent 127, all other bits clear.
    pub open spec fn one_value() -> Float32 {
        Float32 { bits: 0x3f80_0000 }
    }

    /// The value `0.0`.
    pub fn zero() -> (value: Float32)
        ensures
            value == Float32::zero_value(),
    {
        Float32 { bits: 0 }
    }

    /// The value `1.0`.
    pub fn one() -> (value: Float32)
        ensures
            value == Float32::one_value(),
    {
        Float32 { bits: 0x3f80_0000 }
    }

    /// Tells whether the value is neither infinite nor a NaN.
    pub fn is_finite(self) -> (finite: bool)
        ensures
            finite == self.finite(),
    {
        (self.bits / 0x80_0000) % 0x100 != 0xff
    }
}

impl Float64 {
    /// The value is no number: its exponent field is all ones, and its fraction is not zero.
    pub open spec fn is_nan(self) -> bool {
        self.bits % 0x8000_0000_0000_0000 > 0x7ff0_0000_0000_0000
    }

    /// The value is a zero, of either sign.
    pub open spec fn is_zero(self) -> bool {
        self.bits % 0x8000_0000_0000_0000 == 0
    }

    /// The value `0.0`.
    pub open spec fn zero_value() -> Float64 {
        Float64 { bits: 0 }
    }

    /// The value `0.0`.
    pub fn zero() -> (value: Float64)
        ensures
            value == Float64::zero_value(),
    {
        Float64 { bits: 0 }
    }
}

impl vstd::std_specs::cmp::PartialEqSpecImpl for Float32 {
    open spec fn obeys_eq_spec() -> bool {
        true
    }

    /// The values are equal as numbers: a NaN equals nothing, and both zeros are equal.
    open spec fn eq_spec(&self, other: &Float32) -> bool {
        &&& !self.is_nan()
        &&& !other.is_nan()
        &&& self.bits == other.bits || self.is_zero() && other.is_zero()
    }
}

impl PartialEq for Float32 {
    fn eq(&self, other: &Float32) -> (equal: bool) {
        let left: u32 = self.bits % 0x8000_0000;
        let right: u32 = other.bits % 0x8000_0000;
        left <= 0x7f80_0000 && right <= 0x7f80_0000 && (self.bits == other.bits || left == 0 && right == 0)
    }
}

impl vstd::std_specs::cmp::PartialEqSpecImpl for Float64 {
    open spec fn obeys_eq_spec() -> bool {
        true
    }

    /// The values are equal as numbers: a NaN equals nothing, and both zeros are equal.
    open spec fn eq_spec(&self, other: &Float64) -> bool {
        &&& !self.is_nan()
        &&& !other.is_nan()
        &&& self.bits == other.bits || self.is_zero() && other.is_zero()
    }
}

impl PartialEq for Float64 {
    fn eq(&self, other: &Float64) -> (equal: bool) {
        let left: u64 = self.bits % 0x8000_0000_0000_0000;
        let right: u64 = other.bits % 0x8000_0000_0000_0000;
        left <= 0x7ff0_0000_0000_0000 && right <= 0x7ff0_0000_0000_0000 && (self.bits == other.bits || left == 0 && right == 0)
    }
}

/// Floating-point arithmetic, supplied by the program that uses the library.
///
/// Nothing is assumed of what the operations return. Contracts say which operation was applied to
/// which values, and hold for every way to carry the operations out.
pub trait FloatMath {
    /// The value that a sum of no terms has.
    fn empty_sum() -> Float32;

    /// `left + right`.
    fn add(left: Float32, right: Float32) -> Float32;

    /// `left * right`.
    fn mul(left: Float32, right: Float32) -> Float32;

    /// `current + (next - current) * phase`, with the phase rounded to single precision.
    fn interpolate(current: Float32, next: Float32, phase: Float64) -> Float32;

    /// `numerator / denominator`.
    fn rate_ratio(numerator: u32, denominator: u32) -> Float64;

    /// The rate rounded to the nearest whole number that a `u32` holds.
    fn whole_hertz(rate: Float64) -> u32;

    /// `ppm / 1_000_000`.
    fn parts_per_million(ppm: u32) -> Float64;

    /// `(fill - target) / span * limit`, held between `-limit` and `limit`.
    fn drift_correction(fill: usize, target: usize, span: usize, limit: Float64) -> Float64;

    /// `(available - startup) / startup * 0.0005`, held between `-0.001` and `0.001`.
    fn fill_correction(available: usize, startup: usize) -> Float64;

    /// `phase + step * (1.0 + correction)`.
    fn advance_phase(phase: Float64, step: Float64, correction: Float64) -> Float64;

    /// `phase >= 1.0`.
    fn has_whole_frame(phase: Float64) -> bool;

    /// `phase - 1.0`.
    fn without_whole_frame(phase: Float64) -> Float64;

    /// `millionths / 1_000_000`.
    fn coefficient(millionths: i32) -> Float32;

    /// The factor for a gain in thousandths of a decibel: `10` to the power `millidb / 1_000 / 20`.
    fn gain(millidb: i32) -> Float32;

    /// The value with six decimals.
    fn six_decimals(value: Float32) -> String;
}

} // verus!
