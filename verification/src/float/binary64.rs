//! Double-precision numbers.
use vstd::prelude::*;
use crate::float::format::Format;
use crate::float::binary32::Binary32;

verus! {

/// A number in the binary64 format, as its bit pattern.
///
/// `==` on this type compares bit patterns; `lt`, `le` and `eq_value` compare
/// numbers.
#[derive(Debug, Clone, Copy, PartialEq, Eq, Structural)]
pub struct Binary64 {
    /// The sign bit, the exponent and the fraction, from the top.
    pub bits: u64,
}

impl Binary64 {
    /// Positive zero.
    pub open spec fn nothing() -> Binary64 {
        Binary64 { bits: 0 }
    }

    /// The number one.
    pub open spec fn unit() -> Binary64 {
        Binary64 { bits: 0x3ff0_0000_0000_0000 }
    }

    /// The sum, rounded once.
    #[verifier::opaque]
    pub open spec fn plus(self, other: Binary64) -> Binary64 {
        Binary64 { bits: Format::Double.sum(self.bits as nat, other.bits as nat) as u64 }
    }

    /// The product, rounded once.
    #[verifier::opaque]
    pub open spec fn times(self, other: Binary64) -> Binary64 {
        Binary64 { bits: Format::Double.product(self.bits as nat, other.bits as nat) as u64 }
    }

    /// The quotient, rounded once.
    #[verifier::opaque]
    pub open spec fn over(self, other: Binary64) -> Binary64 {
        Binary64 { bits: Format::Double.quotient(self.bits as nat, other.bits as nat) as u64 }
    }

    #[verifier::opaque]
    pub open spec fn negated(self) -> Binary64 {
        Binary64 { bits: Format::Double.neg(self.bits as nat) as u64 }
    }

    /// The difference, rounded once.
    pub open spec fn minus(self, other: Binary64) -> Binary64 {
        self.plus(other.negated())
    }

    /// The square root, rounded once.
    #[verifier::opaque]
    pub open spec fn root(self) -> Binary64 {
        Binary64 { bits: Format::Double.root(self.bits as nat) as u64 }
    }

    /// The number without its sign.
    #[verifier::opaque]
    pub open spec fn absolute(self) -> Binary64 {
        Binary64 { bits: Format::Double.magnitude(self.bits as nat) as u64 }
    }

    #[verifier::opaque]
    pub open spec fn nan(self) -> bool {
        Format::Double.is_nan(self.bits as nat)
    }

    #[verifier::opaque]
    pub open spec fn finite(self) -> bool {
        Format::Double.is_finite(self.bits as nat)
    }

    /// The place in the order of numbers, beyond an infinity for a NaN.
    #[verifier::opaque]
    pub open spec fn rank(self) -> int {
        Format::Double.rank(self.bits as nat)
    }

    /// The place in the total order of bit patterns, where negative zero
    /// comes before positive zero.
    #[verifier::opaque]
    pub open spec fn total_rank(self) -> int {
        if Format::Double.negative(self.bits as nat) {
            -(Format::Double.magnitude(self.bits as nat) as int) - 1
        } else {
            Format::Double.magnitude(self.bits as nat) as int
        }
    }

    pub open spec fn below(self, other: Binary64) -> bool {
        !self.nan() && !other.nan() && self.rank() < other.rank()
    }

    pub open spec fn at_most(self, other: Binary64) -> bool {
        !self.nan() && !other.nan() && self.rank() <= other.rank()
    }

    /// The larger number; the other one where one is a NaN.
    pub open spec fn larger(self, other: Binary64) -> Binary64 {
        if self.nan() || self.below(other) {
            other
        } else {
            self
        }
    }

    /// The smaller number; the other one where one is a NaN.
    pub open spec fn smaller(self, other: Binary64) -> Binary64 {
        if self.nan() || other.below(self) {
            other
        } else {
            self
        }
    }

    /// The number nearest to `x`.
    #[verifier::opaque]
    pub open spec fn whole(x: nat) -> Binary64 {
        Binary64 { bits: Format::Double.from_whole(x) as u64 }
    }

    /// The largest whole number not above this one, from zero up.
    #[verifier::opaque]
    pub open spec fn floor_nat(self) -> nat {
        Format::Double.whole(self.bits as nat)
    }

    /// The smallest whole number not below this one, from zero up.
    #[verifier::opaque]
    pub open spec fn ceil_nat(self) -> nat {
        Format::Double.whole_up(self.bits as nat)
    }

    /// The same number in the other format, rounded once.
    #[verifier::opaque]
    pub open spec fn as_binary32(self) -> Binary32 {
        Binary32 { bits: Format::Double.converted(Format::Single, self.bits as nat) as u32 }
    }

    pub fn from_bits(bits: u64) -> (r: Binary64)
        ensures
            r == (Binary64 { bits }),
    {
        Binary64 { bits }
    }

    pub fn to_bits(self) -> (r: u64)
        ensures
            r == self.bits,
    {
        self.bits
    }

    pub fn zero() -> (r: Binary64)
        ensures
            r == Binary64::nothing(),
    {
        Binary64 { bits: 0 }
    }

    pub fn one() -> (r: Binary64)
        ensures
            r == Binary64::unit(),
    {
        Binary64 { bits: 0x3ff0_0000_0000_0000 }
    }

    pub fn add(self, other: Binary64) -> (r: Binary64)
        ensures
            r == self.plus(other),
    {
        proof {
            reveal(Binary64::plus);
        }
        Binary64 { bits: Format::Double.plus(self.bits as u64, other.bits as u64) as u64 }
    }

    pub fn mul(self, other: Binary64) -> (r: Binary64)
        ensures
            r == self.times(other),
    {
        proof {
            reveal(Binary64::times);
        }
        Binary64 { bits: Format::Double.times(self.bits as u64, other.bits as u64) as u64 }
    }

    pub fn div(self, other: Binary64) -> (r: Binary64)
        ensures
            r == self.over(other),
    {
        proof {
            reveal(Binary64::over);
        }
        Binary64 { bits: Format::Double.over(self.bits as u64, other.bits as u64) as u64 }
    }

    pub fn neg(self) -> (r: Binary64)
        ensures
            r == self.negated(),
    {
        proof {
            reveal(Binary64::negated);
        }
        Binary64 { bits: Format::Double.negate(self.bits as u64) as u64 }
    }

    pub fn sub(self, other: Binary64) -> (r: Binary64)
        ensures
            r == self.minus(other),
    {
        self.add(other.neg())
    }

    pub fn sqrt(self) -> (r: Binary64)
        ensures
            r == self.root(),
    {
        proof {
            reveal(Binary64::root);
        }
        Binary64 { bits: Format::Double.square_root(self.bits as u64) as u64 }
    }

    pub fn abs(self) -> (r: Binary64)
        ensures
            r == self.absolute(),
    {
        proof {
            reveal(Binary64::absolute);
        }
        Binary64 { bits: Format::Double.strip_sign(self.bits as u64) as u64 }
    }

    pub fn is_nan(self) -> (r: bool)
        ensures
            r == self.nan(),
    {
        proof {
            reveal(Binary64::nan);
        }
        Format::Double.nan_pattern(self.bits as u64)
    }

    pub fn is_finite(self) -> (r: bool)
        ensures
            r == self.finite(),
    {
        proof {
            reveal(Binary64::finite);
        }
        Format::Double.finite(self.bits as u64)
    }

    /// The rank as a machine integer.
    pub fn order_key(self) -> (r: i64)
        ensures
            r as int == self.rank(),
            r > i64::MIN,
    {
        proof {
            reveal(Binary64::rank);
        }
        Format::Double.signed_rank(self.bits as u64)
    }

    /// The place in the total order as a machine integer.
    pub fn total_key(self) -> (r: i64)
        ensures
            r as int == self.total_rank(),
    {
        proof {
            reveal(Binary64::total_rank);
            reveal(Binary64::rank);
        }
        let key: i64 = Format::Double.signed_rank(self.bits);
        if self.bits >= 0x8000_0000_0000_0000 {
            key - 1
        } else {
            key
        }
    }

    /// Whether this bit pattern ranks below the other, NaN or not.
    pub fn ranks_below(self, other: Binary64) -> (r: bool)
        ensures
            r == (self.rank() < other.rank()),
    {
        proof {
            reveal(Binary64::rank);
        }
        Format::Double.ranks_below(self.bits as u64, other.bits as u64)
    }

    pub fn lt(self, other: Binary64) -> (r: bool)
        ensures
            r == self.below(other),
    {
        !self.is_nan() && !other.is_nan() && self.ranks_below(other)
    }

    pub fn le(self, other: Binary64) -> (r: bool)
        ensures
            r == self.at_most(other),
    {
        !self.is_nan() && !other.is_nan() && !other.ranks_below(self)
    }

    /// Whether both are the same number; a zero equals a zero.
    pub fn eq_value(self, other: Binary64) -> (r: bool)
        ensures
            r == (self.at_most(other) && other.at_most(self)),
    {
        self.le(other) && other.le(self)
    }

    pub fn max(self, other: Binary64) -> (r: Binary64)
        ensures
            r == self.larger(other),
    {
        if self.is_nan() || self.lt(other) {
            other
        } else {
            self
        }
    }

    pub fn min(self, other: Binary64) -> (r: Binary64)
        ensures
            r == self.smaller(other),
    {
        if self.is_nan() || other.lt(self) {
            other
        } else {
            self
        }
    }

    pub fn from_u64(x: u64) -> (r: Binary64)
        ensures
            r == Binary64::whole(x as nat),
    {
        proof {
            reveal(Binary64::whole);
        }
        Binary64 { bits: Format::Double.from_integer(x) as u64 }
    }

    pub fn floor_u64(self) -> (r: u64)
        ensures
            r as nat == self.floor_nat(),
    {
        proof {
            reveal(Binary64::floor_nat);
        }
        Format::Double.floor_to_integer(self.bits as u64)
    }

    pub fn ceil_u64(self) -> (r: u64)
        ensures
            r as nat == self.ceil_nat(),
    {
        proof {
            reveal(Binary64::ceil_nat);
        }
        Format::Double.ceil_to_integer(self.bits as u64)
    }

    pub fn to_binary32(self) -> (r: Binary32)
        ensures
            r == self.as_binary32(),
    {
        proof {
            reveal(Binary64::as_binary32);
        }
        Binary32 { bits: Format::Double.convert(Format::Single, self.bits as u64) as u32 }
    }
}

} // verus!
