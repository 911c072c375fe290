//! The operations of IEEE 754 on bit patterns, signs and special values
//! included. Every NaN result is the one quiet NaN of the format.
use vstd::prelude::*;
use vstd::arithmetic::power2::*;
use vstd::arithmetic::div_mod::*;
use crate::float::format::Format;
use crate::float::magnitude::{add_magnitudes, convert_magnitude, div_magnitudes, integer_magnitude, lemma_units_strictly_monotone, mul_magnitudes, sqrt_magnitude, sub_magnitudes, whole_part};

verus! {

impl Format {
    /// Whether the sign bit is set.
    pub open spec fn negative(self, bits: nat) -> bool {
        bits >= self.sign_weight()
    }

    /// The bit pattern without its sign.
    pub open spec fn magnitude(self, bits: nat) -> nat {
        bits % self.sign_weight()
    }

    pub open spec fn is_nan(self, bits: nat) -> bool {
        self.magnitude(bits) > self.inf()
    }

    pub open spec fn is_infinite(self, bits: nat) -> bool {
        self.magnitude(bits) == self.inf()
    }

    pub open spec fn is_finite(self, bits: nat) -> bool {
        self.magnitude(bits) < self.inf()
    }

    pub open spec fn pack(self, negative: bool, mag: nat) -> nat {
        if negative {
            mag + self.sign_weight()
        } else {
            mag
        }
    }

    /// The quiet NaN.
    pub open spec fn nan(self) -> nat {
        self.inf() + self.hidden() / 2
    }

    /// The number a finite bit pattern stands for, in units.
    pub open spec fn value(self, bits: nat) -> int {
        if self.negative(bits) {
            -(self.units(self.magnitude(bits)) as int)
        } else {
            self.units(self.magnitude(bits)) as int
        }
    }

    /// A bit pattern's place in the order of numbers; both zeros share one.
    pub open spec fn rank(self, bits: nat) -> int {
        if self.negative(bits) {
            -(self.magnitude(bits) as int)
        } else {
            self.magnitude(bits) as int
        }
    }

    pub open spec fn neg(self, a: nat) -> nat {
        self.pack(!self.negative(a), self.magnitude(a))
    }

    pub open spec fn sum(self, a: nat, b: nat) -> nat {
        if self.is_nan(a) || self.is_nan(b) {
            self.nan()
        } else if self.is_infinite(a) && self.is_infinite(b) {
            if self.negative(a) == self.negative(b) {
                a
            } else {
                self.nan()
            }
        } else if self.is_infinite(a) {
            a
        } else if self.is_infinite(b) {
            b
        } else {
            let z = self.value(a) + self.value(b);
            if z == 0 {
                self.pack(self.negative(a) && self.negative(b), 0)
            } else if z < 0 {
                self.pack(true, self.round((-z) as nat, 1))
            } else {
                self.pack(false, self.round(z as nat, 1))
            }
        }
    }

    pub open spec fn product(self, a: nat, b: nat) -> nat {
        let negative = self.negative(a) != self.negative(b);
        let (x, y) = (self.magnitude(a), self.magnitude(b));
        if self.is_nan(a) || self.is_nan(b) {
            self.nan()
        } else if self.is_infinite(a) || self.is_infinite(b) {
            if x == 0 || y == 0 {
                self.nan()
            } else {
                self.pack(negative, self.inf())
            }
        } else {
            self.pack(negative, self.round(self.units(x) * self.units(y), pow2(self.one_exp())))
        }
    }

    pub open spec fn quotient(self, a: nat, b: nat) -> nat {
        let negative = self.negative(a) != self.negative(b);
        let (x, y) = (self.magnitude(a), self.magnitude(b));
        if self.is_nan(a) || self.is_nan(b) {
            self.nan()
        } else if self.is_infinite(a) {
            if self.is_infinite(b) {
                self.nan()
            } else {
                self.pack(negative, self.inf())
            }
        } else if self.is_infinite(b) {
            self.pack(negative, 0)
        } else if y == 0 {
            if x == 0 {
                self.nan()
            } else {
                self.pack(negative, self.inf())
            }
        } else {
            self.pack(negative, self.round(self.units(x) * pow2(self.one_exp()), self.units(y)))
        }
    }

    pub open spec fn root(self, a: nat) -> nat {
        if self.is_nan(a) {
            self.nan()
        } else if self.magnitude(a) == 0 {
            a
        } else if self.negative(a) {
            self.nan()
        } else if self.is_infinite(a) {
            a
        } else {
            self.round_sqrt(self.units(a))
        }
    }

    pub open spec fn less(self, a: nat, b: nat) -> bool {
        !self.is_nan(a) && !self.is_nan(b) && self.rank(a) < self.rank(b)
    }

    /// The number of `to` nearest to the number `a` of this format.
    pub open spec fn converted(self, to: Format, a: nat) -> nat {
        if self.is_nan(a) {
            to.nan()
        } else if self.is_infinite(a) {
            to.pack(self.negative(a), to.inf())
        } else {
            to.pack(
                self.negative(a),
                to.round(
                    self.units(self.magnitude(a)) * pow2(to.one_exp()),
                    pow2(self.one_exp()),
                ),
            )
        }
    }

    /// The number nearest to the whole number `x`.
    pub open spec fn from_whole(self, x: nat) -> nat {
        self.round(x * pow2(self.one_exp()), 1)
    }

    /// The largest whole number not above `a`; zero below one and for a NaN.
    pub open spec fn whole(self, a: nat) -> nat {
        if self.is_nan(a) || self.negative(a) {
            0
        } else if self.is_infinite(a) {
            u64::MAX as nat
        } else {
            let w = self.units(a) / pow2(self.one_exp());
            if w > u64::MAX {
                u64::MAX as nat
            } else {
                w
            }
        }
    }

    /// The smallest whole number not below `a`; zero for nothing above zero
    /// and for a NaN.
    pub open spec fn whole_up(self, a: nat) -> nat {
        if self.is_nan(a) || self.negative(a) {
            0
        } else if self.is_infinite(a) {
            u64::MAX as nat
        } else {
            let one = pow2(self.one_exp());
            let w = self.units(a) / one + if self.units(a) % one == 0 { 0nat } else { 1nat };
            if w > u64::MAX {
                u64::MAX as nat
            } else {
                w
            }
        }
    }

    pub open spec fn well_sized(self, bits: nat) -> bool {
        bits < 2 * self.sign_weight()
    }

    fn sign_bit(self) -> (w: u64)
        ensures
            w as nat == self.sign_weight(),
            self.inf() < w,
            2 * self.inf() + self.hidden() <= u64::MAX,
    {
        match self {
            Format::Single => 0x8000_0000,
            Format::Double => 0x8000_0000_0000_0000,
        }
    }

    fn quiet_nan(self) -> (w: u64)
        ensures
            w as nat == self.nan(),
    {
        match self {
            Format::Single => 0x7fc0_0000,
            Format::Double => 0x7ff8_0000_0000_0000,
        }
    }

    fn unpack(self, bits: u64) -> (r: (bool, u64))
        requires
            self.well_sized(bits as nat),
        ensures
            r.0 == self.negative(bits as nat),
            r.1 as nat == self.magnitude(bits as nat),
            r.1 < self.sign_weight(),
            bits as nat == self.pack(r.0, r.1 as nat),
    {
        let s: u64 = self.sign_bit();
        if bits >= s {
            proof {
                lemma_fundamental_div_mod_converse(bits as int, s as int, 1, (bits - s) as int);
            }
            (true, bits - s)
        } else {
            proof {
                lemma_small_mod(bits as nat, s as nat);
            }
            (false, bits)
        }
    }

    fn packed(self, negative: bool, mag: u64) -> (bits: u64)
        requires
            mag < self.sign_weight(),
        ensures
            bits as nat == self.pack(negative, mag as nat),
            self.well_sized(bits as nat),
    {
        if negative {
            mag + self.sign_bit()
        } else {
            mag
        }
    }

    pub fn negate(self, a: u64) -> (r: u64)
        requires
            self.well_sized(a as nat),
        ensures
            r as nat == self.neg(a as nat),
            self.well_sized(r as nat),
    {
        let (na, ma): (bool, u64) = self.unpack(a);
        self.packed(!na, ma)
    }

    pub fn plus(self, a: u64, b: u64) -> (r: u64)
        requires
            self.well_sized(a as nat),
            self.well_sized(b as nat),
        ensures
            r as nat == self.sum(a as nat, b as nat),
            self.well_sized(r as nat),
    {
        let (na, ma): (bool, u64) = self.unpack(a);
        let (nb, mb): (bool, u64) = self.unpack(b);
        let inf: u64 = self.infinity();
        if ma > inf || mb > inf {
            self.quiet_nan()
        } else if ma == inf && mb == inf {
            if na == nb {
                a
            } else {
                self.quiet_nan()
            }
        } else if ma == inf {
            a
        } else if mb == inf {
            b
        } else {
            self.plus_finite(a, na, ma, b, nb, mb)
        }
    }

    fn plus_finite(self, a: u64, na: bool, ma: u64, b: u64, nb: bool, mb: u64) -> (r: u64)
        requires
            ma < self.inf(),
            mb < self.inf(),
            na == self.negative(a as nat),
            nb == self.negative(b as nat),
            ma as nat == self.magnitude(a as nat),
            mb as nat == self.magnitude(b as nat),
        ensures
            r as nat == self.sum(a as nat, b as nat),
            self.well_sized(r as nat),
    {
        let ghost ua = self.units(ma as nat);
        let ghost ub = self.units(mb as nat);
        if na == nb {
            let mag: u64 = add_magnitudes(self, ma, mb);
            proof {
                lemma_round_bounded(self, ua + ub, 1);
                lemma_round_zero(self, 1);
            }
            self.packed(na, mag)
        } else if ma == mb {
            0
        } else if mb < ma {
            let mag: u64 = sub_magnitudes(self, ma, mb);
            proof {
                lemma_units_strictly_monotone(self, mb as nat, ma as nat);
                lemma_round_bounded(self, (ua - ub) as nat, 1);
            }
            self.packed(na, mag)
        } else {
            let mag: u64 = sub_magnitudes(self, mb, ma);
            proof {
                lemma_units_strictly_monotone(self, ma as nat, mb as nat);
                lemma_round_bounded(self, (ub - ua) as nat, 1);
            }
            self.packed(nb, mag)
        }
    }

    pub fn times(self, a: u64, b: u64) -> (r: u64)
        requires
            self.well_sized(a as nat),
            self.well_sized(b as nat),
        ensures
            r as nat == self.product(a as nat, b as nat),
            self.well_sized(r as nat),
    {
        let (na, ma): (bool, u64) = self.unpack(a);
        let (nb, mb): (bool, u64) = self.unpack(b);
        let inf: u64 = self.infinity();
        let negative: bool = na != nb;
        if ma > inf || mb > inf {
            self.quiet_nan()
        } else if ma == inf || mb == inf {
            if ma == 0 || mb == 0 {
                self.quiet_nan()
            } else {
                let _s: u64 = self.sign_bit();
                self.packed(negative, inf)
            }
        } else {
            let mag: u64 = mul_magnitudes(self, ma, mb);
            proof {
                lemma_round_bounded(
                    self,
                    self.units(ma as nat) * self.units(mb as nat),
                    pow2(self.one_exp()),
                );
            }
            self.packed(negative, mag)
        }
    }

    pub fn over(self, a: u64, b: u64) -> (r: u64)
        requires
            self.well_sized(a as nat),
            self.well_sized(b as nat),
        ensures
            r as nat == self.quotient(a as nat, b as nat),
            self.well_sized(r as nat),
    {
        let (na, ma): (bool, u64) = self.unpack(a);
        let (nb, mb): (bool, u64) = self.unpack(b);
        let inf: u64 = self.infinity();
        let _s: u64 = self.sign_bit();
        let negative: bool = na != nb;
        if ma > inf || mb > inf {
            self.quiet_nan()
        } else if ma == inf {
            if mb == inf {
                self.quiet_nan()
            } else {
                self.packed(negative, inf)
            }
        } else if mb == inf {
            self.packed(negative, 0)
        } else if mb == 0 {
            if ma == 0 {
                self.quiet_nan()
            } else {
                self.packed(negative, inf)
            }
        } else if ma == 0 {
            proof {
                lemma_units_zero(self);
                assert(0 * pow2(self.one_exp()) == 0);
                lemma_units_strictly_monotone(self, 0, mb as nat);
                lemma_round_zero(self, self.units(mb as nat));
            }
            self.packed(negative, 0)
        } else {
            let mag: u64 = div_magnitudes(self, ma, mb);
            proof {
                lemma_round_bounded(
                    self,
                    self.units(ma as nat) * pow2(self.one_exp()),
                    self.units(mb as nat),
                );
            }
            self.packed(negative, mag)
        }
    }

    pub fn square_root(self, a: u64) -> (r: u64)
        requires
            self.well_sized(a as nat),
        ensures
            r as nat == self.root(a as nat),
            self.well_sized(r as nat),
    {
        let (na, ma): (bool, u64) = self.unpack(a);
        let inf: u64 = self.infinity();
        let _s: u64 = self.sign_bit();
        if ma > inf {
            self.quiet_nan()
        } else if ma == 0 {
            a
        } else if na {
            self.quiet_nan()
        } else if ma == inf {
            a
        } else {
            proof {
                lemma_root_bounded(self, self.units(a as nat));
            }
            sqrt_magnitude(self, a)
        }
    }

    pub fn strip_sign(self, a: u64) -> (r: u64)
        requires
            self.well_sized(a as nat),
        ensures
            r as nat == self.magnitude(a as nat),
            self.well_sized(r as nat),
    {
        let (_na, ma): (bool, u64) = self.unpack(a);
        ma
    }

    pub fn nan_pattern(self, a: u64) -> (r: bool)
        requires
            self.well_sized(a as nat),
        ensures
            r == self.is_nan(a as nat),
    {
        let (_na, ma): (bool, u64) = self.unpack(a);
        ma > self.infinity()
    }

    pub fn finite(self, a: u64) -> (r: bool)
        requires
            self.well_sized(a as nat),
        ensures
            r == self.is_finite(a as nat),
    {
        let (_na, ma): (bool, u64) = self.unpack(a);
        ma < self.infinity()
    }

    /// Whether `a` ranks below `b`.
    pub fn ranks_below(self, a: u64, b: u64) -> (r: bool)
        requires
            self.well_sized(a as nat),
            self.well_sized(b as nat),
        ensures
            r == (self.rank(a as nat) < self.rank(b as nat)),
    {
        let (na, ma): (bool, u64) = self.unpack(a);
        let (nb, mb): (bool, u64) = self.unpack(b);
        if na {
            if nb {
                ma > mb
            } else {
                ma > 0 || mb > 0
            }
        } else {
            if nb {
                false
            } else {
                ma < mb
            }
        }
    }

    /// The rank as a machine integer.
    pub fn signed_rank(self, a: u64) -> (r: i64)
        requires
            self.well_sized(a as nat),
        ensures
            r as int == self.rank(a as nat),
            r > i64::MIN,
    {
        let (na, ma): (bool, u64) = self.unpack(a);
        let _s: u64 = self.sign_bit();
        if na {
            -(ma as i64)
        } else {
            ma as i64
        }
    }

    pub fn convert(self, to: Format, a: u64) -> (r: u64)
        requires
            self.well_sized(a as nat),
        ensures
            r as nat == self.converted(to, a as nat),
            to.well_sized(r as nat),
    {
        let (na, ma): (bool, u64) = self.unpack(a);
        let inf: u64 = self.infinity();
        let _s: u64 = to.sign_bit();
        if ma > inf {
            to.quiet_nan()
        } else if ma == inf {
            to.packed(na, to.infinity())
        } else {
            let mag: u64 = convert_magnitude(self, to, ma);
            proof {
                lemma_round_bounded(
                    to,
                    self.units(ma as nat) * pow2(to.one_exp()),
                    pow2(self.one_exp()),
                );
            }
            to.packed(na, mag)
        }
    }

    pub fn from_integer(self, x: u64) -> (r: u64)
        ensures
            r as nat == self.from_whole(x as nat),
            self.well_sized(r as nat),
    {
        proof {
            lemma_round_bounded(self, x as nat * pow2(self.one_exp()), 1);
        }
        integer_magnitude(self, x)
    }

    pub fn floor_to_integer(self, a: u64) -> (r: u64)
        requires
            self.well_sized(a as nat),
        ensures
            r as nat == self.whole(a as nat),
    {
        let (na, ma): (bool, u64) = self.unpack(a);
        let inf: u64 = self.infinity();
        if ma > inf || na {
            0
        } else if ma == inf {
            0xffff_ffff_ffff_ffff
        } else {
            let (w, _fraction): (u64, bool) = whole_part(self, ma);
            w
        }
    }

    pub fn ceil_to_integer(self, a: u64) -> (r: u64)
        requires
            self.well_sized(a as nat),
        ensures
            r as nat == self.whole_up(a as nat),
    {
        let (na, ma): (bool, u64) = self.unpack(a);
        let inf: u64 = self.infinity();
        if ma > inf || na {
            0
        } else if ma == inf {
            0xffff_ffff_ffff_ffff
        } else {
            let (w, fraction): (u64, bool) = whole_part(self, ma);
            if fraction && w < 0xffff_ffff_ffff_ffff {
                w + 1
            } else {
                w
            }
        }
    }
}

proof fn lemma_round_bounded(f: Format, n: nat, d: nat)
    ensures
        f.round(n, d) <= f.inf(),
        f.inf() < f.sign_weight(),
{
    reveal(Format::round);
}

pub proof fn lemma_root_bounded(f: Format, u: nat)
    ensures
        f.round_sqrt(u) <= f.inf(),
        f.inf() < f.sign_weight(),
{
    let n = u * pow2(f.one_exp());
    let y = crate::float::magnitude::isqrt(n);
    lemma_round_bounded(f, 2 * y + if y * y == n { 0nat } else { 1nat }, 2);
}

pub proof fn lemma_units_zero(f: Format)
    ensures
        f.units(0) == 0,
{
    reveal(Format::units);
    lemma_div_of0(f.hidden() as int);
    lemma_small_mod(0, f.hidden());
}

/// Nothing rounds to zero.
pub proof fn lemma_round_zero(f: Format, d: nat)
    requires
        d > 0,
    ensures
        f.round(0, d) == 0,
{
    reveal(Format::round);
    lemma_div_of0(d as int);
    lemma2_to64();
    assert(d * pow2(0) == d) by (nonlinear_arith) requires pow2(0) == 1;
    lemma_small_mod(0, d);
    assert(0 * f.hidden() == 0);
}

} // verus!
