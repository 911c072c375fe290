//! The two binary floating-point formats of IEEE 754, as plain integers.
//!
//! Every finite magnitude is a whole number of *units*, the unit being the
//! smallest positive number of its format. All arithmetic of this crate is
//! stated in those units, over mathematical integers: an operation computes
//! the exact result and rounds it once.
use vstd::prelude::*;
use vstd::arithmetic::power2::pow2;

verus! {

/// Which binary interchange format a bit pattern is read in.
#[derive(Debug, Clone, Copy, PartialEq, Eq, Structural)]
pub enum Format {
    /// binary32: 24 significant bits, unit 2^-149.
    Single,
    /// binary64: 53 significant bits, unit 2^-1074.
    Double,
}

/// The number of binary digits of `v`; zero has none.
pub open spec fn bit_len(v: nat) -> nat
    decreases v,
{
    if v == 0 {
        0
    } else {
        1 + bit_len(v / 2)
    }
}

/// The integer nearest to `n / d`, the even one of two equally near.
pub open spec fn nearest_even(n: nat, d: nat) -> nat {
    let k = n / d;
    let r = n % d;
    if 2 * r > d || (2 * r == d && k % 2 == 1) {
        k + 1
    } else {
        k
    }
}

impl Format {
    /// How many significant bits a number of this format holds.
    pub open spec fn precision(self) -> nat {
        match self {
            Format::Single => 24,
            Format::Double => 53,
        }
    }

    /// One is `pow2(one_exp)` units.
    pub open spec fn one_exp(self) -> nat {
        match self {
            Format::Single => 149,
            Format::Double => 1074,
        }
    }

    /// The exponent field of an infinity, and of every NaN.
    pub open spec fn top_exponent(self) -> nat {
        match self {
            Format::Single => 255,
            Format::Double => 2047,
        }
    }

    /// `pow2(precision - 1)`: the weight of the lowest exponent bit.
    pub open spec fn hidden(self) -> nat {
        match self {
            Format::Single => 0x80_0000,
            Format::Double => 0x10_0000_0000_0000,
        }
    }

    /// The magnitude of an infinity.
    pub open spec fn inf(self) -> nat {
        self.top_exponent() * self.hidden()
    }

    /// The weight of the sign bit.
    pub open spec fn sign_weight(self) -> nat {
        (self.top_exponent() + 1) * self.hidden()
    }

    /// How many units the finite magnitude `mag` stands for.
    #[verifier::opaque]
    pub open spec fn units(self, mag: nat) -> nat {
        let exponent = mag / self.hidden();
        let fraction = mag % self.hidden();
        if exponent == 0 {
            fraction
        } else {
            (fraction + self.hidden()) * pow2((exponent - 1) as nat)
        }
    }

    /// The exponent of the spacing of this format's numbers around `v` units.
    pub open spec fn spacing(self, v: nat) -> nat {
        if bit_len(v) <= self.precision() {
            0
        } else {
            (bit_len(v) - self.precision()) as nat
        }
    }

    /// The magnitude nearest to `n / d` units, ties going to the even one; an
    /// infinity where that lies beyond the largest finite number.
    #[verifier::opaque]
    pub open spec fn round(self, n: nat, d: nat) -> nat {
        let j = self.spacing(n / d);
        let mag = j * self.hidden() + nearest_even(n, d * pow2(j));
        if mag < self.inf() {
            mag
        } else {
            self.inf()
        }
    }
}

} // verus!
