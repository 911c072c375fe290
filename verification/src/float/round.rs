//! Rounding a significand and an exponent to a magnitude.
use vstd::prelude::*;
use vstd::arithmetic::power2::*;
use vstd::arithmetic::div_mod::*;
use vstd::arithmetic::mul::*;
use crate::float::format::{bit_len, nearest_even, Format};

verus! {

/// `pow2(e)` where `e` is not negative, else one.
pub open spec fn scale_up(e: int) -> nat {
    if e >= 0 {
        pow2(e as nat)
    } else {
        1
    }
}

/// `pow2(-e)` where `e` is negative, else one.
pub open spec fn scale_down(e: int) -> nat {
    if e < 0 {
        pow2((-e) as nat)
    } else {
        1
    }
}

/// `m * 2^e` is `n / d` rounded down to a multiple of `2^e`, and `sticky`
/// says that something was lost.
pub open spec fn truncates(n: nat, d: nat, m: nat, e: int, sticky: bool) -> bool {
    let num = n * scale_down(e);
    let den = d * scale_up(e);
    &&& d > 0
    &&& m == num / den
    &&& sticky == (num % den != 0)
}

pub proof fn lemma_bit_len_bounds(v: nat)
    ensures
        v > 0 ==> bit_len(v) > 0 && pow2((bit_len(v) - 1) as nat) <= v,
        v < pow2(bit_len(v)),
    decreases v,
{
    lemma2_to64();
    if v > 0 {
        lemma_bit_len_bounds(v / 2);
        lemma_pow2_unfold(bit_len(v));
        if v / 2 > 0 {
            lemma_pow2_unfold((bit_len(v) - 1) as nat);
        }
    }
}

pub proof fn lemma_bit_len_unique(v: nat, len: nat)
    requires
        len > 0,
        pow2((len - 1) as nat) <= v < pow2(len),
    ensures
        bit_len(v) == len,
{
    lemma_bit_len_bounds(v);
    lemma_pow2_pos((len - 1) as nat);
    let b = bit_len(v);
    if b < len {
        if b < len - 1 {
            lemma_pow2_strictly_increases(b, (len - 1) as nat);
        }
    } else if b > len {
        if b - 1 > len {
            lemma_pow2_strictly_increases(len, (b - 1) as nat);
        }
    }
}

pub proof fn lemma_bit_len_shifted(v: nat, k: nat)
    ensures
        bit_len(v * pow2(k)) == if v == 0 { 0 } else { bit_len(v) + k },
        bit_len(v / pow2(k)) == if bit_len(v) <= k { 0 } else { (bit_len(v) - k) as nat },
    decreases k,
{
    lemma_pow2_pos(k);
    if k == 0 {
        lemma2_to64();
        assert(v * pow2(0) == v) by (nonlinear_arith) requires pow2(0) == 1;
        assert(v / pow2(0) == v) by (nonlinear_arith) requires pow2(0) == 1;
        lemma_bit_len_bounds(v);
    } else {
        let h = (k - 1) as nat;
        lemma_pow2_unfold(k);
        lemma_pow2_pos(h);
        lemma_bit_len_shifted(v, h);
        assert(v * pow2(k) == 2 * (v * pow2(h))) by (nonlinear_arith)
            requires pow2(k) == 2 * pow2(h);
        if v > 0 {
            assert(v * pow2(h) > 0) by (nonlinear_arith) requires v > 0, pow2(h) > 0;
        } else {
            assert(0 * pow2(h) == 0);
        }
        lemma_div_denominator(v as int, pow2(h) as int, 2);
        assert(v / pow2(k) == (v / pow2(h)) / 2) by {
            assert(pow2(h) * 2 == pow2(k));
        }
        lemma_bit_len_bounds(v / pow2(h));
    }
}


proof fn lemma_u128_shl(x: u128, s: u32)
    requires
        s < 128,
        x * pow2(s as nat) <= u128::MAX,
    ensures
        (x << s) as nat == x * pow2(s as nat),
    decreases s,
{
    if s == 0 {
        lemma2_to64();
        assert(x << 0u32 == x) by (bit_vector);
        assert(x * pow2(0) == x) by (nonlinear_arith) requires pow2(0) == 1;
    } else {
        let t = (s - 1) as u32;
        lemma_pow2_unfold(s as nat);
        assert(x * pow2(s as nat) == 2 * (x * pow2(t as nat))) by (nonlinear_arith)
            requires pow2(s as nat) == 2 * pow2(t as nat);
        lemma_u128_shl(x, t);
        let y = x << t;
        assert(x << s == (x << t) << 1u32) by (bit_vector)
            requires s == t + 1, s < 128;
        assert(y << 1u32 == 2 * y) by (bit_vector)
            requires y <= 0x7fff_ffff_ffff_ffff_ffff_ffff_ffff_ffffu128;
    }
}

/// The number of binary digits of `m`.
pub fn bit_length(m: u128) -> (len: u32)
    ensures
        len as nat == bit_len(m as nat),
        len <= 128,
{
    let high: u64 = (m >> 64u32) as u64;
    proof {
        lemma2_to64();
        vstd::bits::lemma_u128_shr_is_div(m, 64);
        assert((m >> 64u32) <= u64::MAX as u128) by (bit_vector);
        lemma_bit_len_shifted(m as nat, 64);
        lemma_bit_len_bounds(m as nat);
    }
    if high == 0 {
        let low: u64 = m as u64;
        word_length(low)
    } else {
        proof {
            lemma_bit_len_bounds(high as nat);
        }
        64 + word_length(high)
    }
}

/// The number of binary digits of one machine word.
fn word_length(w: u64) -> (len: u32)
    ensures
        len as nat == bit_len(w as nat),
        len <= 64,
{
    if w >= 0x1_0000_0000 {
        let high: u64 = w / 0x1_0000_0000;
        proof {
            lemma_bit_len_split(w as nat, 32, 0x1_0000_0000);
        }
        32 + half_length(high)
    } else {
        half_length(w)
    }
}

fn half_length(w: u64) -> (len: u32)
    requires
        w < 0x1_0000_0000,
    ensures
        len as nat == bit_len(w as nat),
        len <= 32,
{
    if w >= 0x1_0000 {
        let high: u64 = w / 0x1_0000;
        proof {
            lemma_bit_len_split(w as nat, 16, 0x1_0000);
        }
        16 + quarter_length(high)
    } else {
        quarter_length(w)
    }
}

fn quarter_length(w: u64) -> (len: u32)
    requires
        w < 0x1_0000,
    ensures
        len as nat == bit_len(w as nat),
        len <= 16,
{
    if w >= 0x100 {
        let high: u64 = w / 0x100;
        proof {
            lemma_bit_len_split(w as nat, 8, 0x100);
        }
        8 + byte_length(high)
    } else {
        byte_length(w)
    }
}

fn byte_length(w: u64) -> (len: u32)
    requires
        w < 0x100,
    ensures
        len as nat == bit_len(w as nat),
        len <= 8,
{
    proof {
        lemma2_to64();
    }
    if w >= 0x80 {
        proof {
            lemma_bit_len_unique(w as nat, 8);
        }
        8
    } else if w >= 0x40 {
        proof {
            lemma_bit_len_unique(w as nat, 7);
        }
        7
    } else if w >= 0x20 {
        proof {
            lemma_bit_len_unique(w as nat, 6);
        }
        6
    } else if w >= 0x10 {
        proof {
            lemma_bit_len_unique(w as nat, 5);
        }
        5
    } else if w >= 8 {
        proof {
            lemma_bit_len_unique(w as nat, 4);
        }
        4
    } else if w >= 4 {
        proof {
            lemma_bit_len_unique(w as nat, 3);
        }
        3
    } else if w >= 2 {
        proof {
            lemma_bit_len_unique(w as nat, 2);
        }
        2
    } else if w >= 1 {
        proof {
            lemma_bit_len_unique(w as nat, 1);
        }
        1
    } else {
        0
    }
}

proof fn lemma_bit_len_split(v: nat, k: nat, weight: nat)
    requires
        weight == pow2(k) || (k, weight) == (32nat, 0x1_0000_0000nat) || (k, weight) == (16nat, 0x1_0000nat)
            || (k, weight) == (8nat, 0x100nat),
        v >= weight,
    ensures
        bit_len(v) == bit_len(v / weight) + k,
{
    lemma2_to64();
    lemma_pow2_pos(k);
    lemma_bit_len_shifted(v, k);
    lemma_bit_len_bounds(v);
    if bit_len(v) <= k {
        if bit_len(v) < k {
            lemma_pow2_strictly_increases(bit_len(v), k);
        }
    }
}


/// What `nearest_even` makes of a fraction whose floor and rest are known.
proof fn lemma_nearest_from_parts(n: nat, d: nat, k: nat, r: nat)
    requires
        d > 0,
        n == k * d + r,
        r < d,
    ensures
        n / d == k,
        n % d == r,
{
    lemma_fundamental_div_mod_converse(n as int, d as int, k as int, r as int);
}

/// Scaling both sides of a fraction changes nothing.
pub proof fn lemma_nearest_scaled(n: nat, d: nat, c: nat)
    requires
        d > 0,
        c > 0,
    ensures
        nearest_even(n * c, d * c) == nearest_even(n, d),
        (n * c) / (d * c) == n / d,
{
    let k = n / d;
    let r = n % d;
    lemma_fundamental_div_mod(n as int, d as int);
    assert(d * c > 0) by (nonlinear_arith) requires d > 0, c > 0;
    assert(n * c == k * (d * c) + r * c) by (nonlinear_arith) requires n == d * k + r;
    assert(r * c < d * c) by (nonlinear_arith) requires r < d, c > 0;
    lemma_nearest_from_parts(n * c, d * c, k, r * c);
    assert(2 * (r * c) > d * c <==> 2 * r > d) by (nonlinear_arith) requires c > 0;
    assert(2 * (r * c) == d * c <==> 2 * r == d) by (nonlinear_arith) requires c > 0;
}

/// Dropping `s` low digits of a truncated significand, with the sticky flag,
/// decides the rounding.
proof fn lemma_nearest_of_truncated(num: nat, den: nat, m: nat, sticky: bool, s: nat)
    requires
        den > 0,
        m == num / den,
        sticky == (num % den != 0),
        s > 0,
    ensures
        ({
            let k = m / pow2(s);
            let rem = m % pow2(s);
            let half = pow2((s - 1) as nat);
            nearest_even(num, den * pow2(s)) == if rem > half || (rem == half && (sticky || k % 2
                == 1)) {
                k + 1
            } else {
                k
            }
        }),
{
    let w = pow2(s);
    let half = pow2((s - 1) as nat);
    lemma_pow2_pos(s);
    lemma_pow2_unfold(s);
    let k = m / w;
    let rem = m % w;
    let rest = num % den;
    lemma_fundamental_div_mod(m as int, w as int);
    lemma_fundamental_div_mod(num as int, den as int);
    assert(den * w > 0) by (nonlinear_arith) requires den > 0, w > 0;
    let low = rem * den + rest;
    assert(num == k * (den * w) + low) by (nonlinear_arith)
        requires num == den * m + rest, m == w * k + rem, low == rem * den + rest;
    assert(low < den * w) by (nonlinear_arith)
        requires low == rem * den + rest, rest < den, rem + 1 <= w, den > 0;
    lemma_nearest_from_parts(num, den * w, k, low);
    assert(den * w == 2 * (half * den)) by (nonlinear_arith) requires w == 2 * half;
    if rem > half {
        assert(rem * den >= half * den + den) by (nonlinear_arith) requires rem >= half + 1, den > 0;
    } else if rem < half {
        assert(rem * den + den <= half * den) by (nonlinear_arith) requires rem + 1 <= half, den > 0;
    }
}

proof fn lemma_truncated_spacing(f: Format, n: nat, d: nat, m: nat, e: int, sticky: bool)
    requires
        truncates(n, d, m, e, sticky),
        sticky ==> m > 0,
    ensures
        f.spacing(n / d) == if m > 0 && bit_len(m) + e > f.precision() {
            bit_len(m) + e - f.precision()
        } else {
            0
        },
{
    if e >= 0 {
        let w = pow2(e as nat);
        lemma_pow2_pos(e as nat);
        assert(n * 1 == n);
        lemma_div_denominator(n as int, d as int, w as int);
        lemma_bit_len_shifted(n / d, e as nat);
        if m == 0 {
            assert(d * w > 0) by (nonlinear_arith) requires d > 0, w > 0;
            lemma_fundamental_div_mod(n as int, (d * w) as int);
            assert((d * w) * 0 == 0);
            assert(n == 0);
            lemma_div_of0(d as int);
        } else {
            lemma_bit_len_bounds(m);
        }
    } else {
        let w = pow2((-e) as nat);
        lemma_pow2_pos((-e) as nat);
        lemma_nearest_scaled(n, d, w);
        assert(d * 1 == d);
        assert((n * w) / (d * w) == ((n * w) / d) / w) by {
            lemma_div_denominator((n * w) as int, d as int, w as int);
        }
        lemma_bit_len_shifted(m, (-e) as nat);
        lemma_bit_len_bounds(m);
    }
}

proof fn lemma_truncated_nearest(n: nat, d: nat, m: nat, e: int, sticky: bool, j: nat)
    requires
        truncates(n, d, m, e, sticky),
        j <= e ==> !sticky,
    ensures
        j <= e ==> nearest_even(n, d * pow2(j)) == m * pow2((e - j) as nat),
        j > e ==> ({
            let s = (j - e) as nat;
            let k = m / pow2(s);
            let rem = m % pow2(s);
            let half = pow2((s - 1) as nat);
            nearest_even(n, d * pow2(j)) == if rem > half || (rem == half && (sticky || k % 2
                == 1)) {
                k + 1
            } else {
                k
            }
        }),
{
    lemma_pow2_pos(j);
    let x = d * pow2(j);
    assert(x > 0) by (nonlinear_arith) requires d > 0, pow2(j) > 0, x == d * pow2(j);
    if j <= e {
        let g = (e - j) as nat;
        lemma_pow2_adds(j, g);
        lemma_pow2_pos(e as nat);
        let den = d * pow2(e as nat);
        assert(den > 0) by (nonlinear_arith) requires d > 0, pow2(e as nat) > 0, den == d * pow2(e as nat);
        assert(n * 1 == n);
        lemma_fundamental_div_mod(n as int, den as int);
        assert(n == (m * pow2(g)) * x + 0) by (nonlinear_arith)
            requires
                n == den * m + 0,
                den == d * pow2(e as nat),
                pow2(e as nat) == pow2(j) * pow2(g),
                x == d * pow2(j);
        lemma_nearest_from_parts(n, x, m * pow2(g), 0);
    } else {
        let s = (j - e) as nat;
        if e >= 0 {
            lemma_pow2_adds(e as nat, s);
            let den = d * pow2(e as nat);
            lemma_pow2_pos(e as nat);
            assert(den > 0) by (nonlinear_arith) requires d > 0, pow2(e as nat) > 0, den == d * pow2(e as nat);
            assert(n * 1 == n);
            lemma_nearest_of_truncated(n, den, m, sticky, s);
            assert(den * pow2(s) == x) by (nonlinear_arith)
                requires den == d * pow2(e as nat), pow2(j) == pow2(e as nat) * pow2(s), x == d * pow2(j);
        } else {
            let w = pow2((-e) as nat);
            lemma_pow2_pos((-e) as nat);
            lemma_pow2_adds(j, (-e) as nat);
            assert(d * 1 == d);
            lemma_nearest_of_truncated(n * w, d, m, sticky, s);
            lemma_nearest_scaled(n, x, w);
            assert(d * pow2(s) == x * w) by (nonlinear_arith)
                requires pow2(s) == pow2(j) * w, x == d * pow2(j);
        }
    }
}


proof fn lemma_long_enough(p: nat, m: nat)
    requires
        m >= pow2(p),
    ensures
        bit_len(m) > p,
{
    lemma_bit_len_bounds(m);
    if bit_len(m) < p {
        lemma_pow2_strictly_increases(bit_len(m), p);
    }
}

proof fn lemma_fits(p: nat, v: nat)
    requires
        p <= 53,
        bit_len(v) <= p,
    ensures
        v < pow2(p),
        v < 0x20_0000_0000_0000,
{
    lemma2_to64();
    lemma2_to64_rest();
    lemma_bit_len_bounds(v);
    if bit_len(v) < p {
        lemma_pow2_strictly_increases(bit_len(v), p);
    }
    if p < 53 {
        lemma_pow2_strictly_increases(p, 53);
    }
}

proof fn lemma_far_below_half(m: nat, s: nat)
    requires
        s >= 128,
        m < 0x8000_0000_0000_0000_0000_0000_0000_0000,
    ensures
        m / pow2(s) == 0,
        m % pow2(s) == m,
        m < pow2((s - 1) as nat),
{
    lemma2_to64();
    lemma2_to64_rest();
    lemma_pow2_adds(64, 63);
    assert(pow2(127) == 0x8000_0000_0000_0000_0000_0000_0000_0000);
    if s > 128 {
        lemma_pow2_strictly_increases(127, (s - 1) as nat);
    }
    lemma_pow2_unfold(s);
    lemma_small_mod(m, pow2(s));
    lemma_basic_div(m as int, pow2(s) as int);
}

/// `m * 2^s`.
pub(crate) fn shift_left(m: u128, s: u32) -> (r: u128)
    requires
        s < 128,
        m * pow2(s as nat) <= u128::MAX,
    ensures
        r as nat == m * pow2(s as nat),
{
    proof {
        lemma_u128_shl(m, s);
    }
    m << s
}

/// `m / 2^s` rounded to the nearest integer, where `sticky` adds a little
/// less than one to `m`.
fn round_off(m: u128, s: u32, sticky: bool) -> (r: u64)
    requires
        0 < s < 128,
        m as nat / pow2(s as nat) < 0x20_0000_0000_0000,
    ensures
        ({
            let k = m as nat / pow2(s as nat);
            let rem = m as nat % pow2(s as nat);
            let half = pow2((s - 1) as nat);
            r as nat == if rem > half || (rem == half && (sticky || k % 2 == 1)) {
                k + 1
            } else {
                k
            }
        }),
{
    let q: u128 = m >> s;
    proof {
        vstd::bits::lemma_u128_shr_is_div(m, s as u128);
        lemma_pow2_pos(s as nat);
        lemma_fundamental_div_mod(m as int, pow2(s as nat) as int);
        assert(q * pow2(s as nat) <= m) by (nonlinear_arith)
            requires m == pow2(s as nat) * q + (m as nat % pow2(s as nat)), m as nat % pow2(s as nat) >= 0;
        assert(m >> s == m >> (s as u128)) by (bit_vector) requires s < 128;
    }
    let rem: u128 = m - shift_left(q, s);
    proof {
        assert(q * pow2(s as nat) == pow2(s as nat) * q) by (nonlinear_arith);
        lemma2_to64();
        lemma2_to64_rest();
        lemma_pow2_adds(64, 63);
        if s < 128 {
            if s - 1 < 127 {
                lemma_pow2_strictly_increases((s - 1) as nat, 127);
            }
        }
        assert(1 * pow2((s - 1) as nat) == pow2((s - 1) as nat));
    }
    let half: u128 = shift_left(1, s - 1);
    let k: u64 = q as u64;
    if rem > half || (rem == half && (sticky || k % 2 == 1)) {
        k + 1
    } else {
        k
    }
}

impl Format {
    /// How many significant bits a number of this format holds.
    pub fn digits(self) -> (p: u32)
        ensures
            p as nat == self.precision(),
    {
        match self {
            Format::Single => 24,
            Format::Double => 53,
        }
    }

    /// The weight of the lowest exponent bit.
    pub fn hidden_bit(self) -> (w: u64)
        ensures
            w as nat == self.hidden(),
    {
        match self {
            Format::Single => 0x80_0000,
            Format::Double => 0x10_0000_0000_0000,
        }
    }

    /// The magnitude of an infinity.
    pub fn infinity(self) -> (w: u64)
        ensures
            w as nat == self.inf(),
    {
        match self {
            Format::Single => 0x7f80_0000,
            Format::Double => 0x7ff0_0000_0000_0000,
        }
    }

    /// The exponent field of an infinity.
    pub fn exponent_limit(self) -> (w: i32)
        ensures
            w as int == self.top_exponent(),
    {
        match self {
            Format::Single => 255,
            Format::Double => 2047,
        }
    }

    /// One is two to this power of units.
    pub fn unit_exponent(self) -> (w: i32)
        ensures
            w as int == self.one_exp(),
    {
        match self {
            Format::Single => 149,
            Format::Double => 1074,
        }
    }

    /// Rounds `n / d` units, given as `m * 2^e` with the lost rest in
    /// `sticky`, to the nearest magnitude.
    pub fn round_significand(
        self,
        m: u128,
        e: i32,
        sticky: bool,
        Ghost(n): Ghost<nat>,
        Ghost(d): Ghost<nat>,
    ) -> (mag: u64)
        requires
            truncates(n, d, m as nat, e as int, sticky),
            sticky ==> m >= pow2(self.precision()),
            m < 0x8000_0000_0000_0000_0000_0000_0000_0000,
            -10_000 < e < 10_000,
        ensures
            mag as nat == self.round(n, d),
    {
        proof {
            reveal(Format::round);
        }
        let p: i32 = self.digits() as i32;
        let len: i32 = bit_length(m) as i32;
        let top: i32 = len + e;
        let j: i32 = if m > 0 && top > p {
            top - p
        } else {
            0
        };
        proof {
            lemma_pow2_pos(self.precision());
            lemma_truncated_spacing(self, n, d, m as nat, e as int, sticky);
            lemma_bit_len_bounds(m as nat);
        }
        if m == 0 {
            proof {
                lemma_truncated_nearest(n, d, 0, e as int, sticky, 0);
                if e < 0 {
                    lemma_pow2_pos((-e) as nat);
                    lemma_pow2_pos((-e - 1) as nat);
                    lemma_div_of0(pow2((-e) as nat) as int);
                    lemma_small_mod(0, pow2((-e) as nat));
                } else {
                    assert(0 * pow2(e as nat) == 0);
                }
            }
            return 0;
        }
        if j >= self.exponent_limit() {
            proof {
                assert(j as nat * self.hidden() >= self.inf()) by (nonlinear_arith)
                    requires
                        j as nat >= self.top_exponent(),
                        self.inf() == self.top_exponent() * self.hidden();
            }
            return self.infinity();
        }
        proof {
            if sticky {
                lemma_long_enough(self.precision(), m as nat);
            }
            lemma_truncated_nearest(n, d, m as nat, e as int, sticky, j as nat);
        }
        let k: u64 = if j <= e {
            proof {
                lemma_bit_len_shifted(m as nat, (e - j) as nat);
                lemma_fits(self.precision(), m as nat * pow2((e - j) as nat));
            }
            shift_left(m, (e - j) as u32) as u64
        } else if j - e >= 128 {
            proof {
                lemma_far_below_half(m as nat, (j - e) as nat);
            }
            0
        } else {
            proof {
                lemma_bit_len_shifted(m as nat, (j - e) as nat);
                lemma_fits(self.precision(), m as nat / pow2((j - e) as nat));
            }
            round_off(m, (j - e) as u32, sticky)
        };
        proof {
            assert(k <= 0x20_0000_0000_0000);
            assert(j as nat * self.hidden() <= 2047 * self.hidden()) by (nonlinear_arith)
                requires j as nat <= 2047;
        }
        let mag: u64 = (j as u64) * self.hidden_bit() + k;
        if mag < self.infinity() {
            mag
        } else {
            self.infinity()
        }
    }
}

} // verus!
