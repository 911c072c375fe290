//! Single-precision numbers.
use vstd::prelude::*;
use crate::float::format::Format;
use crate::float::binary64::Binary64;

verus! {

/// A number in the binary32 format, as its bit pattern.
///
/// `==` on this type compares bit patterns; `lt`, `le` and `eq_value` compare
/// numbers.
#[derive(Debug, Clone, Copy, PartialEq, Eq, Structural)]
pub struct Binary32 {
    /// The sign bit, the exponent and the fraction, from the top.
    pub bits: u32,
}

impl Binary32 {
    /// Positive zero.
    pub open spec fn nothing() -> Binary32 {
        Binary32 { bits: 0 }
    }

    /// The number one.
    pub open spec fn unit() -> Binary32 {
        Binary32 { bits: 0x3f80_0000 }
    }

    /// The sum, rounded once.
    #[verifier::opaque]
    pub open spec fn plus(self, other: Binary32) -> Binary32 {
        Binary32 { bits: Format::Single.sum(self.bits as nat, other.bits as nat) as u32 }
    }

    /// The product, rounded once.
    #[verifier::opaque]
    pub open spec fn times(self, other: Binary32) -> Binary32 {
        Binary32 { bits: Format::Single.product(self.bits as nat, other.bits as nat) as u32 }
    }

    /// The quotient, rounded once.
    #[verifier::opaque]
    pub open spec fn over(self, other: Binary32) -> Binary32 {
        Binary32 { bits: Format::Single.quotient(self.bits as nat, other.bits as nat) as u32 }
    }

    #[verifier::opaque]
    pub open spec fn negated(self) -> Binary32 {
        Binary32 { bits: Format::Single.neg(self.bits as nat) as u32 }
    }

    /// The difference, rounded once.
    pub open spec fn minus(self, other: Binary32) -> Binary32 {
        self.plus(other.negated())
    }

    /// The square root, rounded once.
    #[verifier::opaque]
    pub open spec fn root(self) -> Binary32 {
        Binary32 { bits: Format::Single.root(self.bits as nat) as u32 }
    }

    /// The number without its sign.
    #[verifier::opaque]
    pub open spec fn absolute(self) -> Binary32 {
        Binary32 { bits: Format::Single.magnitude(self.bits as nat) as u32 }
    }

    #[verifier::opaque]
    pub open spec fn nan(self) -> bool {
        Format::Single.is_nan(self.bits as nat)
    }

    #[verifier::opaque]
    pub open spec fn finite(self) -> bool {
        Format::Single.is_finite(self.bits as nat)
    }

    /// The place in the order of numbers, beyond an infinity for a NaN.
    #[verifier::opaque]
    pub open spec fn rank(self) -> int {
        Format::Single.rank(self.bits as nat)
    }

    pub open spec fn below(self, other: Binary32) -> bool {
        !self.nan() && !other.nan() && self.rank() < other.rank()
    }

    pub open spec fn at_most(self, other: Binary32) -> bool {
        !self.nan() && !other.nan() && self.rank() <= other.rank()
    }

    /// The number itself, with the largest finite number of its sign in place
    /// of an infinity.
    pub open spec fn held(self) -> Binary32 {
        if self.finite() || self.nan() {
            self
        } else if Binary32::nothing().below(self) {
            Binary32 { bits: 0x7f7f_ffff }
        } else {
            Binary32 { bits: 0xff7f_ffff }
        }
    }

    /// The larger number; the other one where one is a NaN.
    pub open spec fn larger(self, other: Binary32) -> Binary32 {
        if self.nan() || self.below(other) {
            other
        } else {
            self
        }
    }

    /// The smaller number; the other one where one is a NaN.
    pub open spec fn smaller(self, other: Binary32) -> Binary32 {
        if self.nan() || other.below(self) {
            other
        } else {
            self
        }
    }

    /// The number nearest to `x`.
    #[verifier::opaque]
    pub open spec fn whole(x: nat) -> Binary32 {
        Binary32 { bits: Format::Single.from_whole(x) as u32 }
    }

    /// The largest whole number not above this one, from zero up.
    #[verifier::opaque]
    pub open spec fn floor_nat(self) -> nat {
        Format::Single.whole(self.bits as nat)
    }

    /// The smallest whole number not below this one, from zero up.
    #[verifier::opaque]
    pub open spec fn ceil_nat(self) -> nat {
        Format::Single.whole_up(self.bits as nat)
    }

    /// The same number in the other format, rounded once.
    #[verifier::opaque]
    pub open spec fn as_binary64(self) -> Binary64 {
        Binary64 { bits: Format::Single.converted(Format::Double, self.bits as nat) as u64 }
    }

    pub fn from_bits(bits: u32) -> (r: Binary32)
        ensures
            r == (Binary32 { bits }),
    {
        Binary32 { bits }
    }

    pub fn to_bits(self) -> (r: u32)
        ensures
            r == self.bits,
    {
        self.bits
    }

    pub fn zero() -> (r: Binary32)
        ensures
            r == Binary32::nothing(),
    {
        Binary32 { bits: 0 }
    }

    pub fn one() -> (r: Binary32)
        ensures
            r == Binary32::unit(),
    {
        Binary32 { bits: 0x3f80_0000 }
    }

    pub fn add(self, other: Binary32) -> (r: Binary32)
        ensures
            r == self.plus(other),
    {
        proof {
            reveal(Binary32::plus);
        }
        Binary32 { bits: Format::Single.plus(self.bits as u64, other.bits as u64) as u32 }
    }

    pub fn mul(self, other: Binary32) -> (r: Binary32)
        ensures
            r == self.times(other),
    {
        proof {
            reveal(Binary32::times);
        }
        Binary32 { bits: Format::Single.times(self.bits as u64, other.bits as u64) as u32 }
    }

    pub fn div(self, other: Binary32) -> (r: Binary32)
        ensures
            r == self.over(other),
    {
        proof {
            reveal(Binary32::over);
        }
        Binary32 { bits: Format::Single.over(self.bits as u64, other.bits as u64) as u32 }
    }

    pub fn neg(self) -> (r: Binary32)
        ensures
            r == self.negated(),
    {
        proof {
            reveal(Binary32::negated);
        }
        Binary32 { bits: Format::Single.negate(self.bits as u64) as u32 }
    }

    pub fn sub(self, other: Binary32) -> (r: Binary32)
        ensures
            r == self.minus(other),
    {
        self.add(other.neg())
    }

    pub fn sqrt(self) -> (r: Binary32)
        ensures
            r == self.root(),
    {
        proof {
            reveal(Binary32::root);
        }
        Binary32 { bits: Format::Single.square_root(self.bits as u64) as u32 }
    }

    pub fn abs(self) -> (r: Binary32)
        ensures
            r == self.absolute(),
    {
        proof {
            reveal(Binary32::absolute);
        }
        Binary32 { bits: Format::Single.strip_sign(self.bits as u64) as u32 }
    }

    pub fn is_nan(self) -> (r: bool)
        ensures
            r == self.nan(),
    {
        proof {
            reveal(Binary32::nan);
        }
        Format::Single.nan_pattern(self.bits as u64)
    }

    pub fn is_finite(self) -> (r: bool)
        ensures
            r == self.finite(),
    {
        proof {
            reveal(Binary32::finite);
        }
        Format::Single.finite(self.bits as u64)
    }

    /// The rank as a machine integer.
    pub fn order_key(self) -> (r: i64)
        ensures
            r as int == self.rank(),
            r > i64::MIN,
    {
        proof {
            reveal(Binary32::rank);
        }
        Format::Single.signed_rank(self.bits as u64)
    }

    /// Whether this bit pattern ranks below the other, NaN or not.
    pub fn ranks_below(self, other: Binary32) -> (r: bool)
        ensures
            r == (self.rank() < other.rank()),
    {
        proof {
            reveal(Binary32::rank);
        }
        Format::Single.ranks_below(self.bits as u64, other.bits as u64)
    }

    pub fn lt(self, other: Binary32) -> (r: bool)
        ensures
            r == self.below(other),
    {
        !self.is_nan() && !other.is_nan() && self.ranks_below(other)
    }

    pub fn le(self, other: Binary32) -> (r: bool)
        ensures
            r == self.at_most(other),
    {
        !self.is_nan() && !other.is_nan() && !other.ranks_below(self)
    }

    /// Whether both are the same number; a zero equals a zero.
    pub fn eq_value(self, other: Binary32) -> (r: bool)
        ensures
            r == (self.at_most(other) && other.at_most(self)),
    {
        self.le(other) && other.le(self)
    }

    /// Puts the largest finite number in place of an infinity.
    pub fn hold(self) -> (r: Binary32)
        ensures
            r == self.held(),
    {
        if self.is_finite() || self.is_nan() {
            self
        } else if Binary32::zero().lt(self) {
            Binary32 { bits: 0x7f7f_ffff }
        } else {
            Binary32 { bits: 0xff7f_ffff }
        }
    }

    pub fn max(self, other: Binary32) -> (r: Binary32)
        ensures
            r == self.larger(other),
    {
        if self.is_nan() || self.lt(other) {
            other
        } else {
            self
        }
    }

    pub fn min(self, other: Binary32) -> (r: Binary32)
        ensures
            r == self.smaller(other),
    {
        if self.is_nan() || other.lt(self) {
            other
        } else {
            self
        }
    }

    pub fn from_u64(x: u64) -> (r: Binary32)
        ensures
            r == Binary32::whole(x as nat),
    {
        proof {
            reveal(Binary32::whole);
        }
        Binary32 { bits: Format::Single.from_integer(x) as u32 }
    }

    pub fn floor_u64(self) -> (r: u64)
        ensures
            r as nat == self.floor_nat(),
    {
        proof {
            reveal(Binary32::floor_nat);
        }
        Format::Single.floor_to_integer(self.bits as u64)
    }

    pub fn ceil_u64(self) -> (r: u64)
        ensures
            r as nat == self.ceil_nat(),
    {
        proof {
            reveal(Binary32::ceil_nat);
        }
        Format::Single.ceil_to_integer(self.bits as u64)
    }

    pub fn to_binary64(self) -> (r: Binary64)
        ensures
            r == self.as_binary64(),
    {
        proof {
            reveal(Binary32::as_binary64);
        }
        Binary64 { bits: Format::Single.convert(Format::Double, self.bits as u64) as u64 }
    }
}

} // verus!
