//! Single-precision numbers, held by their bit patterns.
//!
//! Geometry is computed in floating point outside this library. What the
//! library does with the results is compare them, so a number is carried as
//! its IEEE 754 binary32 pattern and compared by integer arithmetic: sign
//! bit, eight exponent bits, twenty-three fraction bits.

use vstd::arithmetic::power2::{lemma_pow2_pos, lemma_pow2_strictly_increases, lemma_pow2_unfold, pow2};
use vstd::prelude::*;

verus! {

/// A single-precision number.
#[derive(Clone, Copy, Debug, PartialEq, Eq, Structural)]
pub struct Scalar {
    pub bits: u32,
}

impl Scalar {
    /// The pattern without its sign bit.
    pub open spec fn magnitude(self) -> int {
        if self.bits < 0x8000_0000 {
            self.bits as int
        } else {
            self.bits - 0x8000_0000
        }
    }

    /// The position in the order of the numbers; both zeros are at 0.
    pub open spec fn spec_key(self) -> int {
        if self.bits < 0x8000_0000 {
            self.magnitude()
        } else {
            -self.magnitude()
        }
    }

    pub open spec fn spec_is_nan(self) -> bool {
        self.magnitude() > 0x7f80_0000
    }

    pub open spec fn spec_is_finite(self) -> bool {
        self.magnitude() < 0x7f80_0000
    }

    /// `self < other`; false where either is not a number.
    pub open spec fn spec_lt(self, other: Scalar) -> bool {
        !self.spec_is_nan() && !other.spec_is_nan() && self.spec_key() < other.spec_key()
    }

    /// `self <= other`; false where either is not a number.
    pub open spec fn spec_le(self, other: Scalar) -> bool {
        !self.spec_is_nan() && !other.spec_is_nan() && self.spec_key() <= other.spec_key()
    }

    /// The exact value of a finite number, in units of the smallest positive
    /// one.
    pub open spec fn units(self) -> int {
        let m = units_of_magnitude(self.magnitude());
        if self.bits < 0x8000_0000 {
            m
        } else {
            -m
        }
    }

    pub fn key(self) -> (k: i64)
        ensures
            k == self.spec_key(),
    {
        if self.bits < 0x8000_0000 {
            self.bits as i64
        } else {
            0x8000_0000i64 - self.bits as i64
        }
    }

    pub fn is_nan(self) -> (b: bool)
        ensures
            b == self.spec_is_nan(),
    {
        if self.bits < 0x8000_0000 {
            self.bits > 0x7f80_0000
        } else {
            self.bits > 0xff80_0000
        }
    }

    pub fn is_finite(self) -> (b: bool)
        ensures
            b == self.spec_is_finite(),
    {
        if self.bits < 0x8000_0000 {
            self.bits < 0x7f80_0000
        } else {
            self.bits < 0xff80_0000
        }
    }

    pub fn lt(self, other: Scalar) -> (b: bool)
        ensures
            b == self.spec_lt(other),
    {
        !self.is_nan() && !other.is_nan() && self.key() < other.key()
    }

    pub fn le(self, other: Scalar) -> (b: bool)
        ensures
            b == self.spec_le(other),
    {
        !self.is_nan() && !other.is_nan() && self.key() <= other.key()
    }

    /// `self > other`.
    pub fn gt(self, other: Scalar) -> (b: bool)
        ensures
            b == other.spec_lt(self),
    {
        other.lt(self)
    }

    /// `self >= other`.
    pub fn ge(self, other: Scalar) -> (b: bool)
        ensures
            b == other.spec_le(self),
    {
        other.le(self)
    }

    /// The smaller of two numbers; what is not a number is passed over, and of
    /// equal ones the first is taken.
    pub open spec fn spec_min(self, other: Scalar) -> Scalar {
        if self.spec_is_nan() || other.spec_lt(self) {
            other
        } else {
            self
        }
    }

    /// The greater of two numbers; what is not a number is passed over, and of
    /// equal ones the first is taken.
    pub open spec fn spec_max(self, other: Scalar) -> Scalar {
        if self.spec_is_nan() || self.spec_lt(other) {
            other
        } else {
            self
        }
    }

    pub fn min(self, other: Scalar) -> (m: Scalar)
        ensures
            m == self.spec_min(other),
    {
        if self.is_nan() || other.lt(self) {
            other
        } else {
            self
        }
    }

    pub fn max(self, other: Scalar) -> (m: Scalar)
        ensures
            m == self.spec_max(other),
    {
        if self.is_nan() || self.lt(other) {
            other
        } else {
            self
        }
    }

    /// The number without its sign.
    pub open spec fn spec_abs(self) -> Scalar {
        Scalar { bits: self.magnitude() as u32 }
    }

    pub fn abs(self) -> (s: Scalar)
        ensures
            s == self.spec_abs(),
    {
        if self.bits < 0x8000_0000 {
            self
        } else {
            Scalar { bits: self.bits - 0x8000_0000 }
        }
    }

    /// The number with the other sign.
    pub open spec fn spec_neg(self) -> Scalar {
        if self.bits < 0x8000_0000 {
            Scalar { bits: (self.bits + 0x8000_0000) as u32 }
        } else {
            Scalar { bits: self.magnitude() as u32 }
        }
    }

    pub fn neg(self) -> (s: Scalar)
        ensures
            s == self.spec_neg(),
    {
        if self.bits < 0x8000_0000 {
            Scalar { bits: self.bits + 0x8000_0000 }
        } else {
            Scalar { bits: self.bits - 0x8000_0000 }
        }
    }

    /// Positive zero.
    pub fn zero() -> (s: Scalar)
        ensures
            s.bits == 0,
    {
        Scalar { bits: 0 }
    }

    /// The number one.
    pub fn one() -> (s: Scalar)
        ensures
            s.bits == 0x3f80_0000,
    {
        Scalar { bits: 0x3f80_0000 }
    }

    /// Positive infinity.
    pub fn infinity() -> (s: Scalar)
        ensures
            s.bits == 0x7f80_0000,
    {
        Scalar { bits: 0x7f80_0000 }
    }

    /// Negative infinity.
    pub fn neg_infinity() -> (s: Scalar)
        ensures
            s.bits == 0xff80_0000,
    {
        Scalar { bits: 0xff80_0000 }
    }
}

/// The value of a positive finite pattern, in units of the smallest positive
/// number: a subnormal fraction as it stands, a normal one with its leading
/// one, doubled once per exponent step.
pub open spec fn units_of_magnitude(m: int) -> int {
    let exponent = m / 0x80_0000;
    let fraction = m % 0x80_0000;
    if exponent == 0 {
        fraction
    } else {
        (0x80_0000 + fraction) * pow2((exponent - 1) as nat)
    }
}

proof fn lemma_units_increase(m: int, n: int)
    requires
        0 <= m < n,
    ensures
        0 <= units_of_magnitude(m) < units_of_magnitude(n),
{
    let (e, f) = (m / 0x80_0000, m % 0x80_0000);
    let (g, h) = (n / 0x80_0000, n % 0x80_0000);
    assert(m == e * 0x80_0000 + f && n == g * 0x80_0000 + h);
    assert(0 <= e <= g);
    assert(0 <= f < 0x80_0000 && 0 <= h < 0x80_0000);
    if g > 0 {
        lemma_pow2_pos((g - 1) as nat);
        let q = pow2((g - 1) as nat) as int;
        assert((0x80_0000 + h) * q >= 0x80_0000 * q) by (nonlinear_arith)
            requires
                h >= 0,
                q >= 1,
        ;
        if e == g {
            assert((0x80_0000 + f) * q < (0x80_0000 + h) * q) by (nonlinear_arith)
                requires
                    f < h,
                    q >= 1,
            ;
            assert((0x80_0000 + f) * q >= 0) by (nonlinear_arith)
                requires
                    f >= 0,
                    q >= 1,
            ;
        } else if e > 0 {
            lemma_pow2_pos((e - 1) as nat);
            let p = pow2((e - 1) as nat) as int;
            assert((0x80_0000 + f) * p < 0x80_0000 * (2 * p)) by (nonlinear_arith)
                requires
                    f < 0x80_0000,
                    p >= 1,
            ;
            assert((0x80_0000 + f) * p >= 0) by (nonlinear_arith)
                requires
                    f >= 0,
                    p >= 1,
            ;
            lemma_pow2_unfold(e as nat);
            if e < g - 1 {
                lemma_pow2_strictly_increases(e as nat, (g - 1) as nat);
            }
            assert(2 * p <= q);
        }
    }
}

/// Changing the sign turns the value round, and taking it away gives the
/// distance from zero.
pub proof fn law_signs(a: Scalar)
    ensures
        a.spec_neg().spec_neg() == a,
        a.spec_is_nan() == a.spec_neg().spec_is_nan(),
        a.spec_is_nan() == a.spec_abs().spec_is_nan(),
        a.spec_neg().spec_key() == -a.spec_key(),
        a.spec_neg().units() == -a.units(),
        a.spec_abs().units() == (if a.spec_key() < 0 {
            -a.units()
        } else {
            a.units()
        }),
{
    if a.magnitude() == 0 {
        assert(units_of_magnitude(0) == 0);
    }
}

/// The comparisons order finite numbers by their exact values.
pub proof fn law_order_is_by_value(a: Scalar, b: Scalar)
    requires
        a.spec_is_finite(),
        b.spec_is_finite(),
    ensures
        a.spec_lt(b) <==> a.units() < b.units(),
        a.spec_le(b) <==> a.units() <= b.units(),
{
    let (m, n) = (a.magnitude(), b.magnitude());
    assert(units_of_magnitude(0) == 0);
    if m < n {
        lemma_units_increase(m, n);
    }
    if n < m {
        lemma_units_increase(n, m);
    }
    if 0 < m {
        lemma_units_increase(0, m);
    }
    if 0 < n {
        lemma_units_increase(0, n);
    }
}

/// Two numbers that are numbers are ordered one way or equal; infinity bounds
/// them all.
pub proof fn law_order_is_total(a: Scalar, b: Scalar, c: Scalar)
    requires
        !a.spec_is_nan(),
        !b.spec_is_nan(),
        !c.spec_is_nan(),
    ensures
        a.spec_le(b) || b.spec_lt(a),
        !(a.spec_le(b) && b.spec_lt(a)),
        a.spec_lt(b) && b.spec_lt(c) ==> a.spec_lt(c),
        a.spec_le((Scalar { bits: 0x7f80_0000 })),
        (Scalar { bits: 0xff80_0000 }).spec_le(a),
{
}

/// The lesser and the greater of two numbers are among them, and neither is
/// beyond the other; what is no number gives way to the other.
pub proof fn law_least_and_greatest(a: Scalar, b: Scalar)
    ensures
        a.spec_is_nan() ==> a.spec_min(b) == b && a.spec_max(b) == b,
        b.spec_is_nan() && !a.spec_is_nan() ==> a.spec_min(b) == a && a.spec_max(b) == a,
        a.spec_min(b) == a || a.spec_min(b) == b,
        a.spec_max(b) == a || a.spec_max(b) == b,
        !a.spec_is_nan() && !b.spec_is_nan() ==> {
            &&& a.spec_min(b).spec_le(a) && a.spec_min(b).spec_le(b)
            &&& a.spec_le(a.spec_max(b)) && b.spec_le(a.spec_max(b))
            &&& a.spec_lt(b) ==> a.spec_min(b) == a && a.spec_max(b) == b
            &&& b.spec_lt(a) ==> a.spec_min(b) == b && a.spec_max(b) == a
        },
{
}

/// The size of a number is not negative, the same for a number and its
/// opposite, and is the number itself or its opposite.
pub proof fn law_size_of_a_number(a: Scalar)
    ensures
        a.spec_abs().spec_key() >= 0,
        a.spec_abs().spec_key() == a.spec_key() || a.spec_abs().spec_key() == -a.spec_key(),
        a.spec_neg().spec_abs() == a.spec_abs(),
        a.spec_abs() == a || a.spec_abs() == a.spec_neg(),
{
}

/// Numbers are either finite, infinite, or no numbers; what is no number
/// compares with nothing, not with itself either.
pub proof fn law_no_number_compares_with_nothing(a: Scalar, b: Scalar)
    ensures
        a.spec_is_nan() ==> !a.spec_is_finite(),
        a.spec_is_nan() || b.spec_is_nan() ==> !a.spec_lt(b) && !a.spec_le(b),
        !a.spec_is_nan() <==> a.spec_le(a),
        !a.spec_lt(a),
        a.spec_is_finite() <==> (Scalar { bits: 0xff80_0000 }).spec_lt(a) && a.spec_lt(Scalar { bits: 0x7f80_0000 }),
{
}

} // verus!
