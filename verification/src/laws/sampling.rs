//! The terms of the sampled Gaussian's moment, in exact numbers.
//!
//! Whatever the logarithm makes of a number, the terms are put together from
//! it as those of a binomial sum.
use vstd::prelude::*;
use vstd::arithmetic::mul::*;
use vstd::arithmetic::power2::*;
use crate::elementary::image64;
use crate::float::binary64::Binary64;
use crate::float::drift::{far, lemma_far_product};
use crate::float::format::Format;
use crate::float::laws::{lemma_sizes, lemma_unpack};
use crate::float::wide::{lemma_rough_gap, lemma_rough_more, lemma_rough_plus, lemma_wide_product, lemma_wide_quotient, lemma_wide_sum, rough, val64};
use crate::laws::moments::{lemma_signs, lemma_within};
use crate::linear::sum64;
use crate::privacy::accountant::{largest64, ln_binomial, ln_term, ln_terms, order_of, sampled_divergence, two64, LogExp};

verus! {

/// What the logarithm makes of a whole number.
pub open spec fn ln_whole<L: Fn(Binary64) -> Binary64>(ln: L, n: nat) -> Binary64 {
    image64(ln, Binary64::whole(n))
}

/// Whether a number is finite and at most 2^126 from zero.
pub open spec fn is_modest(x: Binary64) -> bool {
    x.finite() && far(val64(x)) <= pow2(1200)
}

/// The logarithms of `n`, `n - 1` and so on, `k` of them, less those of the
/// numbers up to `k`.
pub open spec fn exact_binomial<L: Fn(Binary64) -> Binary64>(ln: L, n: nat, k: nat) -> int
    decreases k,
{
    if k == 0 {
        0
    } else {
        exact_binomial(ln, n, (k - 1) as nat) + val64(ln_whole(ln, (n - k + 1) as nat)) - val64(
            ln_whole(ln, k),
        )
    }
}

/// What these logarithms come to without their signs.
pub open spec fn binomial_weight<L: Fn(Binary64) -> Binary64>(ln: L, n: nat, k: nat) -> nat
    decreases k,
{
    if k == 0 {
        0
    } else {
        binomial_weight(ln, n, (k - 1) as nat) + far(val64(ln_whole(ln, (n - k + 1) as nat))) + far(
            val64(ln_whole(ln, k)),
        )
    }
}

/// The logarithm of a binomial coefficient is that of the falling product less
/// that of the factorial, but for roundings.
pub proof fn binomials_are_falling_products_over_factorials<L: Fn(Binary64) -> Binary64>(
    ln: L,
    n: nat,
    k: nat,
)
    requires
        k <= n,
        k <= 0x1000,
        forall|i: nat| 0 < i <= n ==> is_modest(#[trigger] ln_whole(ln, i)),
    ensures
        ln_binomial(ln, n, k).finite(),
        binomial_weight(ln, n, k) <= (2 * k) * pow2(1200),
        rough(
            val64(ln_binomial(ln, n, k)),
            exact_binomial(ln, n, k),
            binomial_weight(ln, n, k),
            k + 1,
        ),
    decreases k,
{
    lemma_signs();
    if k == 0 {
        assert(0 * pow2(1200) == 0);
    } else {
        let h = (k - 1) as nat;
        binomials_are_falling_products_over_factorials(ln, n, h);
        let (x, y) = (ln_whole(ln, (n - k + 1) as nat), ln_whole(ln, k));
        assert(is_modest(x) && is_modest(y));
        let b = pow2(1200);
        lemma_pow2_unfold(1201);
        lemma_pow2_strictly_increases(1201, 2080);
        lemma_rough_gap(x, y);
        let d = x.minus(y);
        let g = val64(x) - val64(y);
        let w = far(val64(x)) + far(val64(y));
        assert(rough(val64(d), g, w, 1));
        lemma_rough_more(val64(d), g, w, 1, k);
        let p = ln_binomial(ln, n, h);
        assert((2 * k) * b == (2 * h) * b + 2 * b) by (nonlinear_arith)
            requires
                k == h + 1,
        ;
        assert((2 * k) * b <= pow2(2080)) by {
            lemma2_to64();
            lemma_within(2 * k, b, 13, 1200);
            lemma_pow2_strictly_increases(1213, 2080);
        }
        lemma_rough_plus(
            p,
            d,
            exact_binomial(ln, n, h),
            g,
            binomial_weight(ln, n, h),
            w,
            k,
        );
    }
}

/// A product in double precision, in exact numbers.
proof fn lemma_modest_product(x: Binary64, y: Binary64, e: int, a: nat)
    requires
        x.finite(),
        y.finite(),
        rough(val64(x), e, a, 1),
        a <= pow2(1201),
        far(val64(y)) <= pow2(1200),
    ensures
        x.times(y).finite(),
        far(val64(x.times(y))) <= pow2(1400),
        0x1_0000_0000_0000 * far(val64(x.times(y)) * pow2(1074) - e * val64(y)) <= a * far(
            val64(y),
        ) + 0x1_0000_0000_0000 * pow2(1074),
{
    let u = pow2(1074);
    let (vx, vy) = (val64(x), val64(y));
    let (fx, fy) = (far(vx), far(vy));
    lemma_pow2_pos(1074);
    lemma_pow2_unfold(1202);
    assert(fx <= 2 * a);
    lemma_within(fx, fy, 1202, 1200);
    lemma_within(a, fy, 1201, 1200);
    lemma_pow2_adds(2090, 1074);
    lemma_pow2_strictly_increases(2402, 3164);
    lemma_wide_product(x, y);
    let v = val64(x.times(y));
    let d = vx - e;
    assert(vx * vy - e * vy == d * vy) by (nonlinear_arith)
        requires
            d == vx - e,
    ;
    lemma_far_product(d, vy);
    let fd = far(d);
    let w = a * fy;
    assert(0x4_0000_0000_0000 * (fd * fy) <= w) by (nonlinear_arith)
        requires
            0x4_0000_0000_0000 * fd <= 1 * a,
            w == a * fy,
    ;
    assert(fx * fy <= 2 * w) by (nonlinear_arith)
        requires
            fx <= 2 * a,
            w == a * fy,
    ;
    assert(far(v * u - e * vy) <= far(v * u - vx * vy) + fd * fy);
    // v u <= 4 a fy + u
    lemma_far_product(v, u as int);
    lemma_far_product(vx, vy);
    let fv = far(v);
    assert(fv * u <= 4 * w + u);
    lemma_pow2_adds(1400, 1074);
    lemma_pow2_unfold(2402);
    lemma_pow2_unfold(2403);
    lemma_pow2_unfold(2404);
    lemma_pow2_strictly_increases(2404, 2474);
    lemma_pow2_strictly_increases(1074, 2403);
    if fv > pow2(1400) {
        lemma_mul_strict_inequality(pow2(1400) as int, fv as int, u as int);
    }
}

/// A sum of modest numbers.
proof fn lemma_modest_sum(x: Binary64, y: Binary64, e: nat)
    requires
        x.finite(),
        y.finite(),
        far(val64(x)) <= pow2(e),
        far(val64(y)) <= pow2(e),
        e <= 1500,
    ensures
        x.plus(y).finite(),
        far(val64(x.plus(y))) <= pow2(e + 2),
        0x20_0000_0000_0000 * far(val64(x.plus(y)) - (val64(x) + val64(y))) <= far(val64(x)) + far(
            val64(y),
        ),
{
    lemma_pow2_unfold(e + 1);
    lemma_pow2_unfold(e + 2);
    lemma_pow2_strictly_increases(e + 1, 2090);
    lemma_wide_sum(x, y);
}

/// A term of the moment is the logarithm of its binomial coefficient, that of
/// the rest of the sampling rate as often as clients stay away, that of the
/// rate as often as clients take part, and the exponent of the noise, added
/// up, but for roundings.
pub proof fn terms_are_those_of_a_binomial_sum<L: Fn(Binary64) -> Binary64>(
    ln: L,
    alpha: Binary64,
    sigma: Binary64,
    q: Binary64,
    k: nat,
)
    requires
        is_modest(alpha),
        is_modest(Binary64::whole(k)),
        is_modest(ln_binomial(ln, order_of(alpha), k)),
        is_modest(image64(ln, Binary64::unit().minus(q))),
        is_modest(image64(ln, q)),
        is_modest(exponent(sigma, k)),
    ensures
        ln_term(ln, alpha, sigma, q, k).finite(),
        ({
            let (a, c) = (val64(alpha), val64(Binary64::whole(k)));
            let (x, y) = (
                val64(image64(ln, Binary64::unit().minus(q))),
                val64(image64(ln, q)),
            );
            let b = val64(ln_binomial(ln, order_of(alpha), k));
            let g = val64(exponent(sigma, k));
            let u = pow2(1074);
            0x1_0000_0000 * far(
                val64(ln_term(ln, alpha, sigma, q, k)) * u - (b * u + (a - c) * x + c * y + g * u),
            ) <= far(b) * u + (far(a) + far(c)) * far(x) + far(c) * far(y) + far(g) * u
                + 0x3_0000_0000 * u
        }),
{
    let kf = Binary64::whole(k);
    let one = Binary64::unit();
    let (lx, ly) = (image64(ln, one.minus(q)), image64(ln, q));
    let lb = ln_binomial(ln, order_of(alpha), k);
    let ex = exponent(sigma, k);
    let (a, c, x, y, b, g) = (
        val64(alpha),
        val64(kf),
        val64(lx),
        val64(ly),
        val64(lb),
        val64(ex),
    );
    let u = pow2(1074);
    lemma_pow2_pos(1074);
    lemma_pow2_unfold(1201);
    lemma_pow2_strictly_increases(1201, 2080);
    lemma_rough_gap(alpha, kf);
    let s = alpha.minus(kf);
    let w = far(a) + far(c);
    assert(rough(val64(s), a - c, w, 1));
    lemma_modest_product(s, lx, a - c, w);
    assert(rough(val64(kf), c, far(c), 1));
    lemma_modest_product(kf, ly, c, far(c));
    let (p1, p2) = (s.times(lx), kf.times(ly));
    lemma_pow2_strictly_increases(1200, 1400);
    lemma_modest_sum(lb, p1, 1400);
    let t1 = lb.plus(p1);
    lemma_pow2_strictly_increases(1400, 1402);
    lemma_modest_sum(t1, p2, 1402);
    let t2 = t1.plus(p2);
    lemma_pow2_strictly_increases(1200, 1404);
    lemma_modest_sum(t2, ex, 1404);
    let t3 = t2.plus(ex);
    assert(t3 == ln_term(ln, alpha, sigma, q, k));
    lemma_far_product(a - c, x);
    lemma_far_product(c, y);
    lemma_mul_inequality(far(a - c) as int, w as int, far(x) as int);
    lemma_term(
        b,
        val64(p1),
        val64(p2),
        g,
        val64(t1),
        val64(t2),
        val64(t3),
        (a - c) * x,
        c * y,
        w * far(x),
        far(c) * far(y),
        u,
    );
}

/// The roundings of a term, put together.
proof fn lemma_term(
    b: int,
    p1: int,
    p2: int,
    g: int,
    t1: int,
    t2: int,
    t3: int,
    e1: int,
    e2: int,
    w1: nat,
    w2: nat,
    u: nat,
)
    requires
        u > 0,
        far(e1) <= w1,
        far(e2) <= w2,
        0x1_0000_0000_0000 * far(p1 * u - e1) <= w1 + 0x1_0000_0000_0000 * u,
        0x1_0000_0000_0000 * far(p2 * u - e2) <= w2 + 0x1_0000_0000_0000 * u,
        0x20_0000_0000_0000 * far(t1 - (b + p1)) <= far(b) + far(p1),
        0x20_0000_0000_0000 * far(t2 - (t1 + p2)) <= far(t1) + far(p2),
        0x20_0000_0000_0000 * far(t3 - (t2 + g)) <= far(t2) + far(g),
    ensures
        0x1_0000_0000 * far(t3 * u - (b * u + e1 + e2 + g * u)) <= far(b) * u + w1 + w2 + far(g) * u
            + 0x3_0000_0000 * u,
{
    let (d1, d2, d3) = (t1 - (b + p1), t2 - (t1 + p2), t3 - (t2 + g));
    assert(t3 * u - (b * u + e1 + e2 + g * u) == (d1 + d2 + d3) * u + (p1 * u - e1) + (p2 * u - e2))
        by (nonlinear_arith)
        requires
            d1 == t1 - (b + p1),
            d2 == t2 - (t1 + p2),
            d3 == t3 - (t2 + g),
    ;
    let d = d1 + d2 + d3;
    lemma_far_product(d, u as int);
    lemma_far_product(p1, u as int);
    lemma_far_product(p2, u as int);
    let (fb, fg, f1, f2, fd) = (far(b), far(g), far(p1), far(p2), far(d));
    lemma_three_sums(b, p1, p2, g, t1, t2, t3);
    let (bu, gu, x1, x2, du) = (fb * u, fg * u, f1 * u, f2 * u, fd * u);
    assert(0x20_0000_0000_0000 * du <= 8 * (bu + x1 + x2 + gu)) by (nonlinear_arith)
        requires
            0x20_0000_0000_0000 * fd <= 8 * (fb + f1 + f2 + fg),
            bu == fb * u,
            gu == fg * u,
            x1 == f1 * u,
            x2 == f2 * u,
            du == fd * u,
    ;
    lemma_scaled_bounds(
        far(t3 * u - (b * u + e1 + e2 + g * u)),
        du,
        far(p1 * u - e1),
        far(p2 * u - e2),
        x1,
        x2,
        bu,
        gu,
        w1,
        w2,
        u,
    );
}

/// The roundings of three sums.
proof fn lemma_three_sums(b: int, p1: int, p2: int, g: int, t1: int, t2: int, t3: int)
    requires
        0x20_0000_0000_0000 * far(t1 - (b + p1)) <= far(b) + far(p1),
        0x20_0000_0000_0000 * far(t2 - (t1 + p2)) <= far(t1) + far(p2),
        0x20_0000_0000_0000 * far(t3 - (t2 + g)) <= far(t2) + far(g),
    ensures
        0x20_0000_0000_0000 * far((t1 - (b + p1)) + (t2 - (t1 + p2)) + (t3 - (t2 + g))) <= 8 * (far(
            b,
        ) + far(p1) + far(p2) + far(g)),
{
    let (n1, n2, n3) = (far(t1 - (b + p1)), far(t2 - (t1 + p2)), far(t3 - (t2 + g)));
    let s = far(b) + far(p1);
    assert(n1 <= s);
    assert(far(t1) <= 2 * s);
    let r = 2 * s + far(p2);
    assert(n2 <= r);
    assert(far(t2) <= 2 * r);
    assert(0x20_0000_0000_0000 * (n1 + n2 + n3) <= s + r + 2 * r + far(g));
}

/// The same in smaller units.
proof fn lemma_scaled_bounds(
    all: nat,
    d: nat,
    g1: nat,
    g2: nat,
    x1: nat,
    x2: nat,
    b: nat,
    g: nat,
    w1: nat,
    w2: nat,
    u: nat,
)
    requires
        all <= d + g1 + g2,
        0x1_0000_0000_0000 * g1 <= w1 + 0x1_0000_0000_0000 * u,
        0x1_0000_0000_0000 * g2 <= w2 + 0x1_0000_0000_0000 * u,
        x1 <= w1 + g1,
        x2 <= w2 + g2,
        0x20_0000_0000_0000 * d <= 8 * (b + x1 + x2 + g),
    ensures
        0x1_0000_0000 * all <= b + w1 + w2 + g + 0x3_0000_0000 * u,
{
    assert(x1 <= 2 * w1 + u);
    assert(x2 <= 2 * w2 + u);
    assert(0x2_0000_0000 * d <= b + w1 + w2 + g + u);
}

/// The exponent of the noise in term `k`.
pub open spec fn exponent(sigma: Binary64, k: nat) -> Binary64 {
    Binary64::whole(k).times(Binary64::whole(k).minus(Binary64::unit())).over(
        two64().times(sigma).times(sigma),
    )
}

/// The exponent of the noise, times twice the square of the multiplier, is the
/// number of clients times one less, but for roundings.
pub proof fn exponents_fall_with_the_noise(sigma: Binary64, k: nat)
    requires
        is_modest(Binary64::whole(k)),
        Binary64::whole(k).times(Binary64::whole(k).minus(Binary64::unit())).finite(),
        far(
            val64(Binary64::whole(k).times(Binary64::whole(k).minus(Binary64::unit()))),
        ) <= pow2(1400),
        two64().times(sigma).times(sigma).finite(),
        pow2(600) <= val64(two64().times(sigma).times(sigma)),
    ensures
        exponent(sigma, k).finite(),
        0x20_0000_0000_0000 * far(
            val64(exponent(sigma, k)) * val64(two64().times(sigma).times(sigma)) - val64(
                Binary64::whole(k).times(Binary64::whole(k).minus(Binary64::unit())),
            ) * pow2(1074),
        ) <= far(
            val64(Binary64::whole(k).times(Binary64::whole(k).minus(Binary64::unit()))),
        ) * pow2(1074) + 0x10_0000_0000_0000 * val64(two64().times(sigma).times(sigma)),
{
    let x = Binary64::whole(k).times(Binary64::whole(k).minus(Binary64::unit()));
    let y = two64().times(sigma).times(sigma);
    lemma_pow2_pos(600);
    lemma_within(far(val64(x)), pow2(1074), 1400, 1074);
    lemma_pow2_adds(2090, 600);
    lemma_pow2_strictly_increases(2474, 2690);
    lemma_mul_inequality(pow2(600) as int, val64(y), pow2(2090) as int);
    lemma_mul_is_commutative(pow2(600) as int, pow2(2090) as int);
    lemma_mul_is_commutative(val64(y), pow2(2090) as int);
    lemma_wide_quotient(x, y);
}

/// The largest of numbers is one of them, and no less than any.
proof fn lemma_largest_is_one(s: Seq<Binary64>)
    requires
        s.len() > 0,
        forall|k: int| 0 <= k < s.len() ==> (#[trigger] s[k]).finite(),
    ensures
        s.contains(largest64(s)),
        forall|k: int| 0 <= k < s.len() ==> (#[trigger] s[k]).rank() <= largest64(s).rank(),
    decreases s.len(),
{
    let t = s.drop_last();
    let x = s.last();
    assert(s[s.len() - 1].finite());
    x.finite_is_a_number();
    assert forall|k: int| 0 <= k < t.len() implies (#[trigger] t[k]).finite() by {
        assert(s[k].finite());
    }
    if t.len() == 0 {
        let low = Binary64 { bits: 0xfff0_0000_0000_0000 };
        assert(low.below(x)) by {
            let f = Format::Double;
            reveal(Binary64::finite);
            reveal(Binary64::nan);
            reveal(Binary64::rank);
            lemma_sizes(f);
            lemma_unpack(f, low.bits as nat);
            lemma_unpack(f, x.bits as nat);
        }
        assert(largest64(t) == low);
        assert(largest64(s) == x);
        assert(s[0] == x);
    } else {
        lemma_largest_is_one(t);
        let m = largest64(t);
        let k = choose|k: int| 0 <= k < t.len() && t[k] == m;
        assert(t[k].finite());
        m.finite_is_a_number();
        assert(s[k] == m);
        assert(s[s.len() - 1] == x);
        assert forall|k: int| 0 <= k < s.len() implies (#[trigger] s[k]).rank() <= largest64(
            s,
        ).rank() by {
            if k < t.len() {
                assert(t[k].rank() <= m.rank());
            }
        }
    }
}

/// What the terms come to, over the largest of them.
pub open spec fn relative_sum<E: Fn(Binary64) -> Binary64>(
    exp: E,
    terms: Seq<Binary64>,
    most: Binary64,
) -> Binary64 {
    sum64(Seq::new(terms.len(), |i: int| image64(exp, terms[i].minus(most))))
}

/// The divergence of the sampled mechanism, times the order less one, is the
/// largest of the terms and the logarithm of what all of them come to over it,
/// but for roundings.
pub proof fn the_divergence_is_the_logarithm_of_the_moment<
    L: Fn(Binary64) -> Binary64,
    E: Fn(Binary64) -> Binary64,
>(f: LogExp<L, E>, alpha: Binary64, sigma: Binary64, q: Binary64)
    requires
        sampled_divergence(f, alpha, sigma, q) is Some,
        0 < sampled_divergence(f, alpha, sigma, q)->0.rank(),
        forall|k: int|
            0 <= k <= order_of(alpha) ==> (#[trigger] ln_terms(f.ln, alpha, sigma, q)[k]).finite(),
        alpha.minus(Binary64::unit()).finite(),
        pow2(1000) <= val64(alpha.minus(Binary64::unit())),
        forall|most: Binary64|
            #![trigger relative_sum(f.exp, ln_terms(f.ln, alpha, sigma, q), most)]
            ln_terms(f.ln, alpha, sigma, q).contains(most) ==> most.plus(
                image64(f.ln, relative_sum(f.exp, ln_terms(f.ln, alpha, sigma, q), most)),
            ).finite() && far(
                val64(
                    most.plus(
                        image64(f.ln, relative_sum(f.exp, ln_terms(f.ln, alpha, sigma, q), most)),
                    ),
                ),
            ) <= pow2(1400),
    ensures
        exists|most: Binary64|
            #![trigger relative_sum(f.exp, ln_terms(f.ln, alpha, sigma, q), most)]
            {
                let terms = ln_terms(f.ln, alpha, sigma, q);
                let x = most.plus(image64(f.ln, relative_sum(f.exp, terms, most)));
                let y = alpha.minus(Binary64::unit());
                &&& terms.contains(most)
                &&& forall|k: int| 0 <= k < terms.len() ==> (#[trigger] terms[k]).rank() <= most.rank()
                &&& 0x20_0000_0000_0000 * far(
                    val64(sampled_divergence(f, alpha, sigma, q)->0) * val64(y) - val64(x) * pow2(
                        1074,
                    ),
                ) <= far(val64(x)) * pow2(1074) + 0x10_0000_0000_0000 * val64(y)
            },
{
    let terms = ln_terms(f.ln, alpha, sigma, q);
    assert forall|k: int| 0 <= k < terms.len() implies (#[trigger] terms[k]).finite() by {
        assert(0 <= k <= order_of(alpha));
    }
    lemma_largest_is_one(terms);
    let most = largest64(terms);
    let sum = relative_sum(f.exp, terms, most);
    let x = most.plus(image64(f.ln, sum));
    let y = alpha.minus(Binary64::unit());
    assert(terms.contains(most));
    lemma_pow2_pos(1000);
    lemma_within(far(val64(x)), pow2(1074), 1400, 1074);
    lemma_pow2_adds(2090, 1000);
    lemma_pow2_strictly_increases(2474, 3090);
    lemma_mul_inequality(pow2(1000) as int, val64(y), pow2(2090) as int);
    lemma_mul_is_commutative(pow2(1000) as int, pow2(2090) as int);
    lemma_mul_is_commutative(val64(y), pow2(2090) as int);
    lemma_wide_quotient(x, y);
    Binary64::nothing().zeros();
    let r = x.over(y);
    assert(sampled_divergence(f, alpha, sigma, q)->0 == r.larger(Binary64::nothing()));
    assert(sampled_divergence(f, alpha, sigma, q)->0 == r);
}

} // verus!
