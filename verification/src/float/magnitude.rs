//! Arithmetic on finite magnitudes: each operation is the exact result in
//! units, rounded once.
use vstd::prelude::*;
use vstd::arithmetic::power2::*;
use vstd::arithmetic::div_mod::*;
use vstd::arithmetic::mul::*;
use crate::float::format::Format;
use crate::float::round::{bit_length, lemma_bit_len_bounds, lemma_bit_len_shifted, scale_down, scale_up, shift_left, truncates};

verus! {

/// The largest integer whose square is at most `n`.
pub open spec fn isqrt(n: nat) -> nat
    decreases n,
{
    if n == 0 {
        0
    } else {
        let h = 2 * isqrt(n / 4);
        if (h + 1) * (h + 1) <= n {
            h + 1
        } else {
            h
        }
    }
}

impl Format {
    /// The magnitude nearest to the square root of `u` units.
    ///
    /// In units that is the root of `u * pow2(one_exp)`. Around it the
    /// format's numbers are at least two units apart, so a root strictly
    /// between two integers rounds as the point halfway between them does.
    pub open spec fn round_sqrt(self, u: nat) -> nat {
        let n = u * pow2(self.one_exp());
        let y = isqrt(n);
        self.round(2 * y + if y * y == n { 0nat } else { 1nat }, 2)
    }
}

pub proof fn lemma_isqrt(n: nat)
    ensures
        isqrt(n) * isqrt(n) <= n,
        n < (isqrt(n) + 1) * (isqrt(n) + 1),
    decreases n,
{
    if n > 0 {
        let q = n / 4;
        lemma_isqrt(q);
        let i = isqrt(q);
        let h = 2 * i;
        assert(h * h == 4 * (i * i)) by (nonlinear_arith) requires h == 2 * i;
        assert((h + 2) * (h + 2) == 4 * ((i + 1) * (i + 1))) by (nonlinear_arith) requires h == 2 * i;
        let r = isqrt(n);
        assert(r == if (h + 1) * (h + 1) <= n { h + 1 } else { h });
        assert(r * r <= n && n < (r + 1) * (r + 1)) by {
            if r == h {
                assert(r * r == h * h);
                assert((r + 1) * (r + 1) == (h + 1) * (h + 1));
            } else {
                assert(r * r == (h + 1) * (h + 1));
                assert((r + 1) * (r + 1) == (h + 2) * (h + 2));
            }
        }
    } else {
        let r = isqrt(n);
        assert(r * r == 0 && (r + 1) * (r + 1) == 1) by (nonlinear_arith) requires r == 0;
    }
}

pub proof fn lemma_isqrt_unique(n: nat, y: nat)
    requires
        y * y <= n,
        n < (y + 1) * (y + 1),
    ensures
        isqrt(n) == y,
{
    lemma_isqrt(n);
    let z = isqrt(n);
    if z < y {
        assert((z + 1) * (z + 1) <= y * y) by (nonlinear_arith) requires z + 1 <= y;
    } else if z > y {
        assert((y + 1) * (y + 1) <= z * z) by (nonlinear_arith) requires y + 1 <= z;
    }
}

pub proof fn lemma_hidden(f: Format)
    ensures
        f.hidden() == pow2((f.precision() - 1) as nat),
        2 * f.hidden() == pow2(f.precision()),
{
    lemma2_to64();
    lemma2_to64_rest();
}

/// A larger magnitude is a larger number of units.
pub proof fn lemma_units_strictly_monotone(f: Format, a: nat, b: nat)
    requires
        a < b,
    ensures
        f.units(a) < f.units(b),
{
    reveal(Format::units);
    let h = f.hidden();
    let (ea, fa) = (a / h, a % h);
    let (eb, fb) = (b / h, b % h);
    lemma_fundamental_div_mod(a as int, h as int);
    lemma_fundamental_div_mod(b as int, h as int);
    lemma_div_is_ordered(a as int, b as int, h as int);
    if ea == eb {
        assert(fa < fb);
        if ea > 0 {
            lemma_pow2_pos((ea - 1) as nat);
            lemma_mul_strict_inequality((fa + h) as int, (fb + h) as int, pow2((ea - 1) as nat) as int);
        }
    } else {
        let w = pow2((eb - 1) as nat);
        lemma_pow2_pos((eb - 1) as nat);
        assert(h * w <= (fb + h) * w) by (nonlinear_arith) requires fb >= 0, w > 0;
        if ea == 0 {
            assert(h <= h * w) by (nonlinear_arith) requires w >= 1;
        } else {
            let v = pow2((ea - 1) as nat);
            lemma_pow2_pos((ea - 1) as nat);
            lemma_pow2_unfold(ea);
            if ea < eb - 1 {
                lemma_pow2_strictly_increases(ea, (eb - 1) as nat);
            }
            assert((fa + h) * v < h * w) by (nonlinear_arith)
                requires fa < h, 2 * v <= w, v > 0, h > 0;
        }
    }
}

pub proof fn lemma_units_monotone(f: Format, a: nat, b: nat)
    requires
        a <= b,
    ensures
        f.units(a) <= f.units(b),
{
    if a < b {
        lemma_units_strictly_monotone(f, a, b);
    }
}

/// Two equal fractions have the same floor and lose something together.
proof fn lemma_equal_fractions(num: nat, den: nat, a: nat, b: nat)
    requires
        den > 0,
        b > 0,
        num * b == a * den,
    ensures
        num / den == a / b,
        (num % den == 0) == (a % b == 0),
{
    let q = a / b;
    let r = a % b;
    lemma_fundamental_div_mod(a as int, b as int);
    assert(num * b == (q * den) * b + r * den) by (nonlinear_arith)
        requires num * b == a * den, a == b * q + r;
    let rho = num - q * den;
    assert(rho * b == r * den) by (nonlinear_arith)
        requires num * b == (q * den) * b + r * den, rho == num - q * den;
    assert(rho >= 0) by (nonlinear_arith) requires rho * b == r * den, r >= 0, den > 0, b > 0;
    assert(rho < den) by (nonlinear_arith) requires rho * b == r * den, r < b, den > 0, b > 0;
    if rho == 0 {
        assert(r == 0) by (nonlinear_arith) requires rho * b == r * den, rho == 0, r >= 0, den > 0;
    }
    if r == 0 {
        assert(rho == 0) by (nonlinear_arith) requires rho * b == r * den, r == 0, b > 0;
    }
    lemma_fundamental_div_mod_converse(num as int, den as int, q as int, rho as int);
}

/// A significand that misses nothing.
proof fn lemma_exact(n: nat, d: nat, m: nat, e: int)
    requires
        d > 0,
        n * scale_down(e) == m * (d * scale_up(e)),
    ensures
        truncates(n, d, m, e, false),
{
    let num = n * scale_down(e);
    let den = d * scale_up(e);
    if e >= 0 {
        lemma_pow2_pos(e as nat);
    }
    assert(den > 0) by (nonlinear_arith) requires d > 0, scale_up(e) > 0, den == d * scale_up(e);
    assert(num == m * den + 0);
    lemma_fundamental_div_mod_converse(num as int, den as int, m as int, 0);
}

/// A significand that misses a part of its last place.
proof fn lemma_inexact(n: nat, m: nat, e: nat, rest: nat)
    requires
        n == m * pow2(e) + rest,
        rest < pow2(e),
    ensures
        truncates(n, 1, m, e as int, rest != 0),
{
    assert(n * 1 == n);
    assert(1 * pow2(e) == pow2(e));
    lemma_fundamental_div_mod_converse(n as int, pow2(e) as int, m as int, rest as int);
}

/// The significand and the spacing exponent of a finite magnitude.
fn split(f: Format, mag: u64) -> (r: (u64, i32))
    requires
        mag < f.inf(),
    ensures
        r.0 * pow2(r.1 as nat) == f.units(mag as nat),
        r.0 < pow2(f.precision()),
        r.0 < 0x20_0000_0000_0000,
        r.1 > 0 ==> r.0 >= f.hidden(),
        0 <= r.1 < f.top_exponent(),
{
    let h: u64 = f.hidden_bit();
    let exponent: u64 = mag / h;
    let fraction: u64 = mag % h;
    proof {
        reveal(Format::units);
        lemma_hidden(f);
        lemma2_to64();
        lemma2_to64_rest();
        lemma_fundamental_div_mod(mag as int, h as int);
        assert(exponent < f.top_exponent()) by (nonlinear_arith)
            requires
                mag == h * exponent + fraction,
                mag < f.inf(),
                f.inf() == f.top_exponent() * h,
                fraction >= 0,
                h > 0;
        assert(fraction * pow2(0) == fraction) by (nonlinear_arith) requires pow2(0) == 1;
    }
    if exponent == 0 {
        (fraction, 0)
    } else {
        (fraction + h, (exponent - 1) as i32)
    }
}

/// The sum of two finite magnitudes.
pub fn add_magnitudes(f: Format, a: u64, b: u64) -> (mag: u64)
    requires
        a < f.inf(),
        b < f.inf(),
    ensures
        mag as nat == f.round(f.units(a as nat) + f.units(b as nat), 1),
{
    let (big, small): (u64, u64) = if a < b { (b, a) } else { (a, b) };
    let (mb, jb): (u64, i32) = split(f, big);
    let (ms, js): (u64, i32) = split(f, small);
    let ghost n = f.units(a as nat) + f.units(b as nat);
    proof {
        lemma_units_monotone(f, small as nat, big as nat);
        lemma_exponents_ordered(f, small as nat, big as nat, ms as nat, js as nat, mb as nat, jb as nat);
        lemma_pow2_pos(js as nat);
    }
    let dist: i32 = jb - js;
    if dist <= 70 {
        proof {
            lemma_pow2_adds(js as nat, dist as nat);
            lemma_wide(mb as nat, dist as nat);
            assert((mb * pow2(dist as nat) + ms) * pow2(js as nat) == n) by (nonlinear_arith)
                requires
                    n == mb * pow2(jb as nat) + ms * pow2(js as nat),
                    pow2(jb as nat) == pow2(js as nat) * pow2(dist as nat);
        }
        let m: u128 = shift_left(mb as u128, dist as u32) + ms as u128;
        proof {
            assert(n * 1 == n);
            assert(1 * pow2(js as nat) == pow2(js as nat));
            lemma_exact(n, 1, m as nat, js as int);
        }
        f.round_significand(m, js, false, Ghost(n), Ghost(1nat))
    } else {
        proof {
            lemma_wide(mb as nat, 17);
            lemma_far_apart(f, mb as nat, jb as nat, ms as nat, js as nat);
            lemma_inexact(n, mb as nat * pow2(17), (jb - 17) as nat, ms as nat * pow2(js as nat));
            lemma_mul_nonzero(ms as int, pow2(js as nat) as int);
        }
        let m: u128 = shift_left(mb as u128, 17);
        f.round_significand(m, jb - 17, ms != 0, Ghost(n), Ghost(1nat))
    }
}

/// The difference of two finite magnitudes, the larger one first.
pub fn sub_magnitudes(f: Format, a: u64, b: u64) -> (mag: u64)
    requires
        a < f.inf(),
        b <= a,
    ensures
        f.units(b as nat) <= f.units(a as nat),
        mag as nat == f.round((f.units(a as nat) - f.units(b as nat)) as nat, 1),
{
    let (mb, jb): (u64, i32) = split(f, a);
    let (ms, js): (u64, i32) = split(f, b);
    let ghost n: nat = (f.units(a as nat) - f.units(b as nat)) as nat;
    proof {
        lemma_units_monotone(f, b as nat, a as nat);
        lemma_exponents_ordered(f, b as nat, a as nat, ms as nat, js as nat, mb as nat, jb as nat);
        lemma_pow2_pos(js as nat);
    }
    let dist: i32 = jb - js;
    if dist <= 70 {
        proof {
            lemma_pow2_adds(js as nat, dist as nat);
            lemma_wide(mb as nat, dist as nat);
            assert((mb * pow2(dist as nat) - ms) * pow2(js as nat) == n) by (nonlinear_arith)
                requires
                    n == mb * pow2(jb as nat) - ms * pow2(js as nat),
                    pow2(jb as nat) == pow2(js as nat) * pow2(dist as nat);
            assert(mb * pow2(dist as nat) >= ms) by (nonlinear_arith)
                requires
                    (mb * pow2(dist as nat) - ms) * pow2(js as nat) == n,
                    n >= 0,
                    pow2(js as nat) > 0;
        }
        let m: u128 = shift_left(mb as u128, dist as u32) - ms as u128;
        proof {
            assert(n * 1 == n);
            assert(1 * pow2(js as nat) == pow2(js as nat));
            lemma_exact(n, 1, m as nat, js as int);
        }
        f.round_significand(m, js, false, Ghost(n), Ghost(1nat))
    } else {
        proof {
            lemma_wide(mb as nat, 17);
            lemma_far_apart(f, mb as nat, jb as nat, ms as nat, js as nat);
            lemma_mul_nonzero(ms as int, pow2(js as nat) as int);
        }
        let m: u128 = shift_left(mb as u128, 17);
        if ms == 0 {
            proof {
                assert(0 * pow2(js as nat) == 0);
                lemma_inexact(n, m as nat, (jb - 17) as nat, 0);
            }
            f.round_significand(m, jb - 17, false, Ghost(n), Ghost(1nat))
        } else {
            proof {
                let w = pow2((jb - 17) as nat);
                let rest = ms as nat * pow2(js as nat);
                assert(n == (m - 1) as nat * w + (w - rest) as nat) by (nonlinear_arith)
                    requires n == m * w - rest, rest <= w, m >= 1;
                lemma_inexact(n, (m - 1) as nat, (jb - 17) as nat, (w - rest) as nat);
            }
            f.round_significand(m - 1, jb - 17, true, Ghost(n), Ghost(1nat))
        }
    }
}

proof fn lemma_exponents_ordered(
    f: Format,
    a: nat,
    b: nat,
    ma: nat,
    ja: nat,
    mb: nat,
    jb: nat,
)
    requires
        f.units(a) <= f.units(b),
        ma * pow2(ja) == f.units(a),
        mb * pow2(jb) == f.units(b),
        mb < pow2(f.precision()),
        ja > 0 ==> ma >= f.hidden(),
    ensures
        ja <= jb,
{
    if ja > jb {
        lemma_hidden(f);
        lemma_pow2_pos(jb);
        let w = pow2(jb);
        lemma_pow2_unfold(ja);
        let v = pow2((ja - 1) as nat);
        if jb < ja - 1 {
            lemma_pow2_strictly_increases(jb, (ja - 1) as nat);
        }
        assert(ma * pow2(ja) > mb * w) by (nonlinear_arith)
            requires
                ma >= f.hidden(),
                mb < 2 * f.hidden(),
                pow2(ja) == 2 * v,
                v >= w,
                w > 0,
                f.hidden() > 0;
    }
}

proof fn lemma_wide(m: nat, s: nat)
    requires
        m < 0x20_0000_0000_0000,
        s <= 70,
    ensures
        m * pow2(s) < 0x800_0000_0000_0000_0000_0000_0000_0000,
{
    lemma2_to64();
    lemma2_to64_rest();
    lemma_pow2_adds(64, 6);
    if s < 70 {
        lemma_pow2_strictly_increases(s, 70);
    }
    assert(m * pow2(s) < 0x20_0000_0000_0000 * 0x40_0000_0000_0000_0000) by (nonlinear_arith)
        requires
            m < 0x20_0000_0000_0000,
            pow2(s) <= 0x40_0000_0000_0000_0000;
}

proof fn lemma_far_apart(f: Format, mb: nat, jb: nat, ms: nat, js: nat)
    requires
        jb > js + 70,
        mb >= f.hidden(),
        ms < 0x20_0000_0000_0000,
    ensures
        mb * pow2(jb) == (mb * pow2(17)) * pow2((jb - 17) as nat),
        ms * pow2(js) < pow2((jb - 17) as nat),
        mb * pow2(17) > pow2(f.precision()),
{
    lemma_hidden(f);
    lemma2_to64();
    lemma2_to64_rest();
    lemma_pow2_adds(17, (jb - 17) as nat);
    lemma_mul_is_associative(mb as int, pow2(17) as int, pow2((jb - 17) as nat) as int);
    lemma_pow2_adds(js, 53);
    lemma_pow2_pos(js);
    assert(ms * pow2(js) < pow2(js) * pow2(53)) by (nonlinear_arith)
        requires ms < 0x20_0000_0000_0000, pow2(53) == 0x20_0000_0000_0000, pow2(js) > 0;
    lemma_pow2_strictly_increases(js + 53, (jb - 17) as nat);
}


/// The product of two finite magnitudes.
pub fn mul_magnitudes(f: Format, a: u64, b: u64) -> (mag: u64)
    requires
        a < f.inf(),
        b < f.inf(),
    ensures
        mag as nat == f.round(f.units(a as nat) * f.units(b as nat), pow2(f.one_exp())),
{
    let (ma, ja): (u64, i32) = split(f, a);
    let (mb, jb): (u64, i32) = split(f, b);
    let t: i32 = f.unit_exponent();
    let e: i32 = ja + jb - t;
    let ghost n: nat = f.units(a as nat) * f.units(b as nat);
    let ghost d: nat = pow2(f.one_exp());
    proof {
        assert(ma * mb < 0x20_0000_0000_0000 * 0x20_0000_0000_0000) by (nonlinear_arith)
            requires ma < 0x20_0000_0000_0000, mb < 0x20_0000_0000_0000;
        lemma_pow2_pos(f.one_exp());
        lemma_pow2_adds(ja as nat, jb as nat);
        let m = (ma * mb) as nat;
        assert(n == m * pow2((ja + jb) as nat)) by (nonlinear_arith)
            requires
                n == (ma * pow2(ja as nat)) * (mb * pow2(jb as nat)),
                m == ma * mb,
                pow2((ja + jb) as nat) == pow2(ja as nat) * pow2(jb as nat);
        if e >= 0 {
            lemma_pow2_adds(t as nat, e as nat);
            assert(n * 1 == n);
        } else {
            lemma_pow2_adds((ja + jb) as nat, (-e) as nat);
            assert(n * pow2((-e) as nat) == m * (d * 1)) by (nonlinear_arith)
                requires
                    n == m * pow2((ja + jb) as nat),
                    d == pow2((ja + jb) as nat) * pow2((-e) as nat);
        }
        lemma_exact(n, d, m, e as int);
    }
    let m: u128 = (ma as u128) * (mb as u128);
    f.round_significand(m, e, false, Ghost(n), Ghost(d))
}

/// The significand of a nonzero magnitude, moved up to fill the format's
/// precision, and by how many places it was moved.
fn normalize(f: Format, m: u64) -> (r: (u64, i32))
    requires
        0 < m < pow2(f.precision()),
        m < 0x20_0000_0000_0000,
    ensures
        f.hidden() <= r.0 < pow2(f.precision()),
        r.0 < 0x20_0000_0000_0000,
        0 <= r.1 <= 53,
        m >= f.hidden() ==> r.1 == 0,
        r.0 as nat == m * pow2(r.1 as nat),
{
    let len: u32 = bit_length(m as u128);
    let p: u32 = f.digits();
    proof {
        lemma_hidden(f);
        lemma2_to64();
        lemma2_to64_rest();
        lemma_bit_len_bounds(m as nat);
        if len > p {
            if p < len - 1 {
                lemma_pow2_strictly_increases(p as nat, (len - 1) as nat);
            }
        }
        if m >= f.hidden() && len < p {
            if len < p - 1 {
                lemma_pow2_strictly_increases(len as nat, (p - 1) as nat);
            }
        }
        lemma_bit_len_shifted(m as nat, (p - len) as nat);
        lemma_bit_len_bounds(m as nat * pow2((p - len) as nat));
        if p < 53 {
            lemma_pow2_strictly_increases(p as nat, 53);
        }
    }
    let z: u32 = p - len;
    let r: u128 = shift_left(m as u128, z);
    (r as u64, z as i32)
}

/// The quotient of two finite magnitudes.
pub fn div_magnitudes(f: Format, a: u64, b: u64) -> (mag: u64)
    requires
        0 < a < f.inf(),
        0 < b < f.inf(),
    ensures
        mag as nat == f.round(f.units(a as nat) * pow2(f.one_exp()), f.units(b as nat)),
{
    let (ma, ja): (u64, i32) = split(f, a);
    let (mb, jb): (u64, i32) = split(f, b);
    proof {
        lemma_units_strictly_monotone(f, 0, a as nat);
        lemma_units_strictly_monotone(f, 0, b as nat);
        if ma == 0 {
            assert(0 * pow2(ja as nat) == 0);
        }
        if mb == 0 {
            assert(0 * pow2(jb as nat) == 0);
        }
    }
    let (mn, z): (u64, i32) = normalize(f, ma);
    let t: i32 = f.unit_exponent();
    let e: i32 = ja - z - jb + t - 60;
    proof {
        lemma_wide(mn as nat, 60);
    }
    let wide: u128 = shift_left(mn as u128, 60);
    let m: u128 = wide / (mb as u128);
    let lost: bool = wide % (mb as u128) != 0;
    let ghost n: nat = f.units(a as nat) * pow2(f.one_exp());
    let ghost d: nat = f.units(b as nat);
    proof {
        let num = n * scale_down(e as int);
        let den = d * scale_up(e as int);
        lemma_pow2_pos(z as nat);
        lemma_pow2_pos(jb as nat);
        if e >= 0 {
            lemma_pow2_pos(e as nat);
        }
        assert(den > 0) by (nonlinear_arith)
            requires d > 0, scale_up(e as int) > 0, den == d * scale_up(e as int);
        // Both sides are the same power of two times the same significands.
        let lhs = pow2(ja as nat) * pow2(t as nat) * scale_down(e as int);
        let rhs = pow2(60) * pow2(jb as nat) * scale_up(e as int) * pow2(z as nat);
        assert(lhs == rhs) by {
            lemma_pow2_adds(ja as nat, t as nat);
            lemma_pow2_adds(60, jb as nat);
            if e >= 0 {
                lemma_pow2_adds((60 + jb) as nat, e as nat);
                lemma_pow2_adds((60 + jb + e) as nat, z as nat);
                assert(lhs * 1 == lhs);
            } else {
                lemma_pow2_adds((ja + t) as nat, (-e) as nat);
                lemma_pow2_adds((60 + jb) as nat, z as nat);
            }
        }
        lemma_regroup(
            ma as int,
            mb as int,
            pow2(z as nat) as int,
            pow2(ja as nat) as int,
            pow2(t as nat) as int,
            scale_down(e as int) as int,
        );
        lemma_regroup_quotient(
            ma as int,
            mb as int,
            pow2(z as nat) as int,
            lhs as int,
            pow2(60) as int,
            pow2(jb as nat) as int,
            scale_up(e as int) as int,
        );
        assert((num * mb) * pow2(z as nat) == (wide * den) * pow2(z as nat));
        lemma_mul_equality_converse(pow2(z as nat) as int, (num * mb) as int, (wide * den) as int);
        lemma_equal_fractions(num, den, wide as nat, mb as nat);
        lemma_quotient_long(f, mn as nat, mb as nat, wide as nat);
    }
    f.round_significand(m, e, lost, Ghost(n), Ghost(d))
}

proof fn lemma_regroup(a: int, b: int, z: int, x: int, y: int, w: int)
    ensures
        (((a * x) * y) * w) * b * z == (a * b * z) * (x * y * w),
{
    let p = x * y * w;
    assert(((a * x) * y) * w == a * p) by {
        lemma_mul_is_associative(a, x, y);
        lemma_mul_is_associative(a, x * y, w);
    }
    assert((a * p) * b == (a * b) * p) by (nonlinear_arith);
    let ab = a * b;
    assert((ab * p) * z == (ab * z) * p) by (nonlinear_arith);
}

proof fn lemma_regroup_quotient(a: int, b: int, z: int, lhs: int, x: int, y: int, w: int)
    requires
        lhs == x * y * w * z,
    ensures
        ((a * z) * x) * ((b * y) * w) * z == (a * b * z) * lhs,
{
    let az = a * z;
    let q = y * w;
    let r = x * q;
    assert((b * y) * w == b * q) by {
        lemma_mul_is_associative(b, y, w);
    }
    assert(x * y * w == r) by {
        lemma_mul_is_associative(x, y, w);
    }
    assert((az * x) * (b * q) == (az * b) * (x * q)) by (nonlinear_arith);
    assert(az * b == a * b * z) by (nonlinear_arith) requires az == a * z;
    lemma_mul_is_associative(az * b, r, z);
}

proof fn lemma_quotient_long(f: Format, mn: nat, mb: nat, wide: nat)
    requires
        mn >= f.hidden(),
        0 < mb < pow2(f.precision()),
        wide == mn * pow2(60),
    ensures
        wide / mb >= pow2(f.precision()),
{
    lemma_hidden(f);
    lemma2_to64();
    lemma2_to64_rest();
    let p = pow2(f.precision());
    assert(wide >= p * mb) by (nonlinear_arith)
        requires
            wide == mn * 0x1000_0000_0000_0000,
            2 * mn >= p,
            mb < p,
            p <= 0x20_0000_0000_0000;
    lemma_div_is_ordered((p * mb) as int, wide as int, mb as int);
    lemma_div_by_multiple(p as int, mb as int);
}

/// The largest integer whose square is at most `m`.
fn integer_root(m: u128) -> (r: u64)
    requires
        m < 0x800_0000_0000_0000_0000_0000_0000_0000 * 2,
    ensures
        r * r <= m,
        m < (r + 1) * (r + 1),
        r < 0x4000_0000_0000_0000,
{
    let mut r: u64 = 0;
    let mut gap: u64 = 0x4000_0000_0000_0000;
    let ghost mut bit: nat = 62;
    proof {
        lemma2_to64();
        lemma2_to64_rest();
        assert(0x4000_0000_0000_0000 * 0x4000_0000_0000_0000 == 0x1000_0000_0000_0000_0000_0000_0000_0000)
            by (nonlinear_arith);
    }
    while gap > 1
        invariant
            gap as nat == pow2(bit),
            r + gap <= 0x4000_0000_0000_0000,
            r * r <= m,
            m < (r + gap) * (r + gap),
        decreases gap,
    {
        proof {
            lemma2_to64();
            lemma_pow2_unfold(bit);
            bit = (bit - 1) as nat;
        }
        gap = gap / 2;
        let next: u64 = r + gap;
        proof {
            assert(next * next <= 0x4000_0000_0000_0000 * 0x4000_0000_0000_0000) by (nonlinear_arith)
                requires next <= 0x4000_0000_0000_0000;
        }
        if (next as u128) * (next as u128) <= m {
            r = next;
        }
    }
    proof {
        lemma_pow2_pos(bit);
    }
    r
}

/// The square root of a finite nonzero magnitude.
pub fn sqrt_magnitude(f: Format, a: u64) -> (mag: u64)
    requires
        0 < a < f.inf(),
    ensures
        mag as nat == f.round_sqrt(f.units(a as nat)),
{
    let (ma, ja): (u64, i32) = split(f, a);
    proof {
        lemma_units_strictly_monotone(f, 0, a as nat);
        if ma == 0 {
            assert(0 * pow2(ja as nat) == 0);
        }
    }
    let (mn, z): (u64, i32) = normalize(f, ma);
    let t: i32 = f.unit_exponent();
    let total: i32 = ja - z + t;
    let g: i32 = if total % 2 == 0 {
        70
    } else {
        69
    };
    let e: i32 = (total - g) / 2;
    proof {
        lemma_wide(mn as nat, g as nat);
    }
    let wide: u128 = shift_left(mn as u128, g as u32);
    let s: u64 = integer_root(wide);
    let lost: bool = (s as u128) * (s as u128) != wide;
    let ghost n: nat = f.units(a as nat) * pow2(f.one_exp());
    let ghost y: nat = isqrt(n);
    let ghost twice: nat = 2 * y + if y * y == n { 0nat } else { 1nat };
    proof {
        assert(s * s <= wide);
        // n == wide * 4^e
        let w = pow2(e as nat);
        lemma_pow2_pos(e as nat);
        lemma_pow2_pos(z as nat);
        lemma_pow2_adds(e as nat, e as nat);
        lemma_pow2_adds(ja as nat, t as nat);
        lemma_pow2_adds(g as nat, (2 * e) as nat);
        lemma_pow2_adds((g + 2 * e) as nat, z as nat);
        assert(n * pow2(z as nat) == (wide * (w * w)) * pow2(z as nat)) by (nonlinear_arith)
            requires
                n == (ma * pow2(ja as nat)) * pow2(t as nat),
                wide == mn * pow2(g as nat),
                mn == ma * pow2(z as nat),
                pow2((ja + t) as nat) == pow2(ja as nat) * pow2(t as nat),
                pow2((ja + t) as nat) == pow2((g + 2 * e) as nat) * pow2(z as nat),
                pow2((g + 2 * e) as nat) == pow2(g as nat) * (w * w);
        lemma_mul_equality_converse(pow2(z as nat) as int, n as int, (wide * (w * w)) as int);
        lemma_root_truncates(n, wide as nat, s as nat, e as nat);
        lemma_root_long(f, mn as nat, g as nat, wide as nat, s as nat);
    }
    f.round_significand(s as u128, e, lost, Ghost(twice), Ghost(2nat))
}

proof fn lemma_root_truncates(n: nat, wide: nat, s: nat, e: nat)
    requires
        n == wide * (pow2(e) * pow2(e)),
        s * s <= wide,
        wide < (s + 1) * (s + 1),
    ensures
        ({
            let y = isqrt(n);
            truncates(2 * y + if y * y == n { 0nat } else { 1nat }, 2, s, e as int, s * s != wide)
        }),
{
    let w = pow2(e);
    lemma_pow2_pos(e);
    let y = isqrt(n);
    lemma_isqrt(n);
    let twice: nat = 2 * y + if y * y == n { 0nat } else { 1nat };
    assert((s * w) * (s * w) == (s * s) * (w * w)) by (nonlinear_arith);
    assert(((s + 1) * w) * ((s + 1) * w) == ((s + 1) * (s + 1)) * (w * w)) by (nonlinear_arith);
    assert((s * s) * (w * w) <= n) by (nonlinear_arith)
        requires n == wide * (w * w), s * s <= wide, w > 0;
    assert(n < ((s + 1) * (s + 1)) * (w * w)) by (nonlinear_arith)
        requires n == wide * (w * w), wide < (s + 1) * (s + 1), w > 0;
    assert(s * w <= y) by (nonlinear_arith)
        requires (s * w) * (s * w) < (y + 1) * (y + 1), s >= 0, w > 0, y >= 0;
    assert(y < (s + 1) * w) by (nonlinear_arith)
        requires y * y < ((s + 1) * w) * ((s + 1) * w), s >= 0, w > 0, y >= 0;
    let rest = (twice - s * (2 * w)) as nat;
    assert(s * (2 * w) == 2 * (s * w)) by (nonlinear_arith);
    assert((s + 1) * w == s * w + w) by (nonlinear_arith);
    assert(twice == s * (2 * w) + rest);
    lemma_fundamental_div_mod_converse(twice as int, (2 * w) as int, s as int, rest as int);
    assert(twice * 1 == twice);
    if s * s == wide {
        assert(n < (s * w + 1) * (s * w + 1)) by (nonlinear_arith) requires n == (s * w) * (s * w);
        lemma_isqrt_unique(n, s * w);
        assert(rest == 0);
    } else {
        if rest == 0 {
            assert(y == s * w);
            assert(y * y == n);
            assert(wide == s * s) by (nonlinear_arith)
                requires (s * s) * (w * w) == wide * (w * w), w > 0;
        }
    }
}

proof fn lemma_root_long(f: Format, mn: nat, g: nat, wide: nat, s: nat)
    requires
        mn >= f.hidden(),
        g >= 69,
        wide == mn * pow2(g),
        wide < (s + 1) * (s + 1),
    ensures
        s >= pow2(f.precision()),
{
    lemma_hidden(f);
    lemma2_to64();
    lemma2_to64_rest();
    lemma_pow2_adds(64, 5);
    if g > 69 {
        lemma_pow2_strictly_increases(69, g);
    }
    let p = pow2(f.precision());
    assert(wide >= p * p) by (nonlinear_arith)
        requires
            wide == mn * pow2(g),
            pow2(g) >= 0x20_0000_0000_0000_0000,
            2 * mn >= p,
            p <= 0x20_0000_0000_0000;
    assert(s >= p) by (nonlinear_arith) requires p * p < (s + 1) * (s + 1), s >= 0, p >= 0;
}

/// A finite magnitude of one format, rounded to the other.
pub fn convert_magnitude(from: Format, to: Format, a: u64) -> (mag: u64)
    requires
        a < from.inf(),
    ensures
        mag as nat == to.round(
            from.units(a as nat) * pow2(to.one_exp()),
            pow2(from.one_exp()),
        ),
{
    let (m, j): (u64, i32) = split(from, a);
    let tf: i32 = from.unit_exponent();
    let tt: i32 = to.unit_exponent();
    let e: i32 = j + tt - tf;
    let ghost n: nat = from.units(a as nat) * pow2(to.one_exp());
    let ghost d: nat = pow2(from.one_exp());
    proof {
        lemma_pow2_pos(from.one_exp());
        lemma_pow2_adds(j as nat, tt as nat);
        assert(n == m * pow2((j + tt) as nat)) by (nonlinear_arith)
            requires
                n == (m * pow2(j as nat)) * pow2(tt as nat),
                pow2((j + tt) as nat) == pow2(j as nat) * pow2(tt as nat);
        if e >= 0 {
            lemma_pow2_adds(tf as nat, e as nat);
            assert(n * 1 == n);
        } else {
            lemma_pow2_adds((j + tt) as nat, (-e) as nat);
            assert(n * pow2((-e) as nat) == m * (d * 1)) by (nonlinear_arith)
                requires
                    n == m * pow2((j + tt) as nat),
                    d == pow2((j + tt) as nat) * pow2((-e) as nat);
        }
        lemma_exact(n, d, m as nat, e as int);
    }
    f_round(to, m, e, Ghost(n), Ghost(d))
}

fn f_round(f: Format, m: u64, e: i32, Ghost(n): Ghost<nat>, Ghost(d): Ghost<nat>) -> (mag: u64)
    requires
        truncates(n, d, m as nat, e as int, false),
        -10_000 < e < 10_000,
    ensures
        mag as nat == f.round(n, d),
{
    f.round_significand(m as u128, e, false, Ghost(n), Ghost(d))
}

/// The magnitude nearest to a whole number.
pub fn integer_magnitude(f: Format, x: u64) -> (mag: u64)
    ensures
        mag as nat == f.round(x as nat * pow2(f.one_exp()), 1),
{
    let t: i32 = f.unit_exponent();
    let ghost n: nat = x as nat * pow2(f.one_exp());
    proof {
        assert(n * 1 == n);
        assert(1 * pow2(t as nat) == pow2(t as nat));
        lemma_exact(n, 1, x as nat, t as int);
    }
    f_round(f, x, t, Ghost(n), Ghost(1nat))
}

/// The whole part of a finite magnitude and whether there is a fraction;
/// the largest `u64` stands for everything above it.
pub fn whole_part(f: Format, a: u64) -> (r: (u64, bool))
    requires
        a < f.inf(),
    ensures
        ({
            let w = f.units(a as nat) / pow2(f.one_exp());
            &&& w <= u64::MAX ==> r.0 as nat == w
            &&& w > u64::MAX ==> r.0 == u64::MAX
            &&& r.1 == (f.units(a as nat) % pow2(f.one_exp()) != 0)
        }),
{
    let (m, j): (u64, i32) = split(f, a);
    let t: i32 = f.unit_exponent();
    let ghost u = f.units(a as nat);
    proof {
        lemma_pow2_pos(t as nat);
        lemma2_to64();
        lemma2_to64_rest();
    }
    if j >= t {
        let s: i32 = j - t;
        proof {
            lemma_hidden(f);
            lemma_pow2_adds(t as nat, s as nat);
            lemma_pow2_pos(s as nat);
            assert(u == (m * pow2(s as nat)) * pow2(t as nat) + 0) by (nonlinear_arith)
                requires u == m * pow2(j as nat), pow2(j as nat) == pow2(t as nat) * pow2(s as nat);
            lemma_fundamental_div_mod_converse(u as int, pow2(t as nat) as int, (m * pow2(s as nat)) as int, 0);
        }
        if s < 64 {
            proof {
                lemma_wide(m as nat, s as nat);
            }
            let w: u128 = shift_left(m as u128, s as u32);
            if w <= 0xffff_ffff_ffff_ffff {
                (w as u64, false)
            } else {
                (0xffff_ffff_ffff_ffff, false)
            }
        } else {
            proof {
                if s > 64 {
                    lemma_pow2_strictly_increases(64, s as nat);
                }
                assert(m * pow2(s as nat) >= pow2(64)) by (nonlinear_arith)
                    requires m >= 1, pow2(s as nat) >= pow2(64);
            }
            (0xffff_ffff_ffff_ffff, false)
        }
    } else {
        let s: i32 = t - j;
        proof {
            lemma_pow2_pos(s as nat);
            lemma_pow2_pos(j as nat);
            lemma_pow2_adds(j as nat, s as nat);
            assert(u * 1 == m * pow2(j as nat));
            assert(u * pow2(s as nat) == m * pow2(t as nat)) by (nonlinear_arith)
                requires u == m * pow2(j as nat), pow2(t as nat) == pow2(j as nat) * pow2(s as nat);
            lemma_equal_fractions(u, pow2(t as nat), m as nat, pow2(s as nat));
        }
        if s < 64 {
            let w: u64 = m >> (s as u32);
            proof {
                vstd::bits::lemma_u64_shr_is_div(m, s as u64);
                let su: u32 = s as u32;
                assert(m >> su == m >> (su as u64)) by (bit_vector) requires su < 64;
                lemma_fundamental_div_mod(m as int, pow2(s as nat) as int);
                lemma_mul_is_commutative(w as int, pow2(s as nat) as int);
                vstd::bits::lemma_u64_shl_is_mul(w, s as u64);
                assert(w << su == w << (su as u64)) by (bit_vector) requires su < 64;
            }
            let back: u64 = w << (s as u32);
            (w, back != m)
        } else {
            proof {
                if s > 64 {
                    lemma_pow2_strictly_increases(64, s as nat);
                }
                lemma_basic_div(m as int, pow2(s as nat) as int);
                lemma_small_mod(m as nat, pow2(s as nat));
            }
            (0, m != 0)
        }
    }
}

} // verus!
