//! Exact non-negative fractions, compared by cross multiplication.

use vstd::prelude::*;

verus! {

/// A configured limit `num / den`.
#[derive(Debug, Clone, Copy, PartialEq, Eq, Structural)]
pub struct Ratio {
    pub num: u32,
    pub den: u32,
}

/// `a / b > limit`, for a positive `b` and a proper limit.
pub open spec fn above(a: nat, b: nat, limit: Ratio) -> bool {
    a * limit.den > limit.num * b
}

/// `a / b >= limit`, for a positive `b` and a proper limit.
pub open spec fn at_least(a: nat, b: nat, limit: Ratio) -> bool {
    a * limit.den >= limit.num * b
}

impl Ratio {
    /// The denominator is not zero.
    pub open spec fn wf(self) -> bool {
        self.den > 0
    }

    /// `num / den`.
    pub fn new(num: u32, den: u32) -> (r: Ratio)
        ensures
            r.num == num,
            r.den == den,
    {
        Ratio { num, den }
    }

    /// Whether `a / b` is above the limit.
    pub fn is_exceeded_by(self, a: u64, b: u64) -> (r: bool)
        ensures
            r == above(a as nat, b as nat, self),
    {
        cross(a, self.den as u64) > cross(self.num as u64, b)
    }

    /// Whether `a / b` is at or above the limit.
    pub fn is_reached_by(self, a: u64, b: u64) -> (r: bool)
        ensures
            r == at_least(a as nat, b as nat, self),
    {
        cross(a, self.den as u64) >= cross(self.num as u64, b)
    }
}

/// A measured fraction, wide enough for any product of two counters. It is
/// reported, not compared; a zero denominator says that nothing was measured.
#[derive(Debug, Clone, Copy, PartialEq, Eq, Structural)]
pub struct Fraction {
    pub num: u128,
    pub den: u128,
}

/// A measured signed fraction.
#[derive(Debug, Clone, Copy, PartialEq, Eq, Structural)]
pub struct SignedFraction {
    pub num: i128,
    pub den: u64,
}

/// The product of two 64-bit numbers, in full.
pub fn cross(a: u64, b: u64) -> (r: u128)
    ensures
        r == a * b,
        r <= 0xffff_ffff_ffff_fffe_0000_0000_0000_0001,
{
    assert(a * b <= 0xffff_ffff_ffff_fffe_0000_0000_0000_0001) by (nonlinear_arith)
        requires
            0 <= a <= 0xffff_ffff_ffff_ffff,
            0 <= b <= 0xffff_ffff_ffff_ffff,
    ;
    a as u128 * b as u128
}

/// Raising the measured fraction never takes it back below a limit it reached.
pub proof fn limits_are_monotone(a: nat, b: nat, c: nat, d: nat, limit: Ratio)
    requires
        limit.wf(),
        b > 0,
        d > 0,
        a * d <= c * b,
    ensures
        at_least(a, b, limit) ==> at_least(c, d, limit),
        above(a, b, limit) ==> above(c, d, limit),
{
    let (n, e) = (limit.num as int, limit.den as int);
    let (a, b, c, d) = (a as int, b as int, c as int, d as int);
    if a * e >= n * b {
        assert(c * e >= n * d) by (nonlinear_arith)
            requires
                a * e >= n * b,
                a * d <= c * b,
                a >= 0,
                b > 0,
                c >= 0,
                d > 0,
                e > 0,
                n >= 0,
        {
            assert(c * b * e >= a * d * e);
            assert(a * e * d >= n * b * d);
            assert(b * (c * e) >= b * (n * d));
        }
    }
    if a * e > n * b {
        assert(c * e > n * d) by (nonlinear_arith)
            requires
                a * e > n * b,
                a * d <= c * b,
                a >= 0,
                b > 0,
                c >= 0,
                d > 0,
                e > 0,
                n >= 0,
        {
            assert(c * b * e >= a * d * e);
            assert(a * e * d > n * b * d);
            assert(b * (c * e) > b * (n * d));
        }
    }
}

/// A limit is exceeded by what is above it and reached by what is above or at it: of two
/// fractions over the same `b`, the one that stands at the limit exactly reaches it, and
/// one more exceeds it.
pub proof fn limits_are_reached_at_themselves(a: nat, b: nat, limit: Ratio)
    requires
        limit.den > 0,
    ensures
        above(a, b, limit) <==> a * limit.den > b * limit.num,
        at_least(a, b, limit) <==> a * limit.den >= b * limit.num,
        at_least(limit.num as nat, limit.den as nat, limit),
        !above(limit.num as nat, limit.den as nat, limit),
        above((limit.num + 1) as nat, limit.den as nat, limit),
        limit.num > 0 ==> !at_least((limit.num - 1) as nat, limit.den as nat, limit),
{
    let (n, d) = (limit.num as int, limit.den as int);
    let c = b as int;
    assert(n * c == c * n && (n + 1) * d > n * d && (n - 1) * d < n * d) by (nonlinear_arith)
        requires
            d > 0,
    ;
}

} // verus!
