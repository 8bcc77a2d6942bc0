//! IEEE 754 double-precision numbers by their bit patterns, and how they compare.
use vstd::prelude::*;

verus! {

/// A double-precision number, held as its 64-bit pattern. Arithmetic on it is the business of
/// the front end; here it is carried and compared.
#[derive(Clone, Copy, Debug, PartialEq, Eq, Structural)]
pub struct Double {
    pub bits: u64,
}

impl Double {
    /// The number one.
    pub open spec fn spec_one() -> Double {
        Double { bits: 0x3FF0_0000_0000_0000 }
    }

    /// The exponent and the fraction.
    pub open spec fn magnitude(self) -> int {
        self.bits as int % 0x8000_0000_0000_0000
    }

    /// Not a number: all exponent bits are set, and the fraction is not zero.
    pub open spec fn is_nan(self) -> bool {
        self.magnitude() > 0x7FF0_0000_0000_0000
    }

    /// An integer that orders the numbers as their values do. Both zeros have rank zero.
    pub open spec fn rank(self) -> int {
        if self.bits >= 0x8000_0000_0000_0000 {
            -self.magnitude()
        } else {
            self.magnitude()
        }
    }

    /// The comparison `<` of IEEE 754: nothing is less or more than what is not a number.
    pub open spec fn lt(self, other: Double) -> bool {
        !self.is_nan() && !other.is_nan() && self.rank() < other.rank()
    }

    /// The number one.
    pub fn one() -> (r: Double)
        ensures
            r == Double::spec_one(),
    {
        Double { bits: 0x3FF0_0000_0000_0000 }
    }

    /// Whether this number is less than another.
    pub fn less(self, other: Double) -> (r: bool)
        ensures
            r == self.lt(other),
    {
        let sign: u64 = 0x8000_0000_0000_0000;
        let infinity: u64 = 0x7FF0_0000_0000_0000;
        let a: u64 = self.bits % sign;
        let b: u64 = other.bits % sign;
        if a > infinity || b > infinity {
            false
        } else if self.bits >= sign {
            if other.bits >= sign {
                a > b
            } else {
                a > 0 || b > 0
            }
        } else {
            other.bits < sign && a < b
        }
    }

    /// Whether two numbers are equal. What is no number equals nothing; the two zeros are equal.
    pub open spec fn same(self, other: Double) -> bool {
        !self.is_nan() && !other.is_nan() && self.rank() == other.rank()
    }

    /// Whether two numbers are equal.
    pub fn equals(self, other: Double) -> (r: bool)
        ensures
            r == self.same(other),
    {
        let sign: u64 = 0x8000_0000_0000_0000;
        let infinity: u64 = 0x7FF0_0000_0000_0000;
        let a: u64 = self.bits % sign;
        let b: u64 = other.bits % sign;
        a <= infinity && a == b && (a == 0 || (self.bits >= sign) == (other.bits >= sign))
    }
}

// ---------------------------------------------------------------------------
// Laws
// ---------------------------------------------------------------------------
/// How numbers compare, by their bits: numbers without a sign are in the order of their bits,
/// numbers with a sign in the opposite order, those with a sign come before those without, but for
/// the two zeros, which are equal; and what is no number compares with nothing.
pub proof fn law_how_numbers_compare(a: Double, b: Double)
    ensures
        a.is_nan() <==> (0x7FF0_0000_0000_0000 < a.bits && a.bits < 0x8000_0000_0000_0000)
            || 0xFFF0_0000_0000_0000 < a.bits,
        a.is_nan() || b.is_nan() ==> !a.lt(b) && !a.same(b),
        !a.is_nan() && !b.is_nan() ==> {
            &&& a.same(b) <==> !a.lt(b) && !b.lt(a)
            &&& a.bits < 0x8000_0000_0000_0000 && b.bits < 0x8000_0000_0000_0000 ==> (a.lt(b)
                <==> a.bits < b.bits)
            &&& a.bits >= 0x8000_0000_0000_0000 && b.bits >= 0x8000_0000_0000_0000 ==> (a.lt(b)
                <==> a.bits > b.bits)
            &&& a.bits >= 0x8000_0000_0000_0000 && b.bits < 0x8000_0000_0000_0000 ==> !b.lt(a) && (
            a.lt(b) <==> !(a.bits == 0x8000_0000_0000_0000 && b.bits == 0))
        },
{
}

/// One has the exponent of one, and no fraction.
pub proof fn law_one_is_one()
    ensures
        Double::spec_one().bits == 1023 * 0x10_0000_0000_0000,
        !Double::spec_one().is_nan(),
{
}

} // verus!
