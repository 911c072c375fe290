//! Size buys no influence over FLTrust.
use vstd::prelude::*;
use vstd::arithmetic::power2::*;
use crate::float::binary32::Binary32;
use crate::float::binary64::Binary64;
use crate::float::format::Format;
use crate::float::laws::{doubled, lemma_converted, lemma_doubled, lemma_pack, lemma_sizes};
use crate::float::magnitude::{lemma_units_monotone, lemma_units_strictly_monotone};
use crate::float::scale::{at_least, lemma_at_least_not_zero, lemma_product_at_least, lemma_product_up_to, lemma_quotient_at_least, lemma_quotient_up_to, lemma_root_at_least, lemma_root_up_to, lemma_single_at_least, lemma_single_up_to, size, up_to};
use crate::float::slip::{lemma_over_slip, nearly, size32};
use crate::float::twice::{is_multiple, lemma_half_quotient, lemma_multiple_at_least, lemma_multiple_product, lemma_multiple_sum, lemma_same, lemma_same_product, lemma_same_quotient, lemma_single_multiple, lemma_size_zero, lemma_twice_product, lemma_twice_root, lemma_twice_sum, lemma_zero_quotient, twice};
use crate::laws::confidence::{all_numbers, is_length64, lemma_bounded_sum, lemma_differences, lemma_empty_sum64, lemma_norm_is_length, lemma_overflow_earns_nothing};
use crate::linear::{differences32, dot64, empty_sum64, products64, sum64};
use crate::trusted::fltrust::{cosine64, is_zero64, norm64, plus_rescaled, trust_score, trusted_round, trusted_sum, Reference};
use crate::weights::{all_finite, is_matrix};

verus! {

/// Whether `h` points the way of `g` and is exactly twice as long.
pub open spec fn doubles(g: Seq<Binary32>, h: Seq<Binary32>) -> bool {
    &&& g.len() == h.len()
    &&& all_finite(g)
    &&& all_finite(h)
    &&& forall|i: int|
        0 <= i < g.len() ==> twice((#[trigger] g[i]).as_binary64(), h[i].as_binary64())
}

/// Sums of doubled terms are doubled.
proof fn lemma_doubled_sums(a: Seq<Binary64>, b: Seq<Binary64>)
    requires
        a.len() == b.len(),
        forall|i: int| 0 <= i < a.len() ==> twice(#[trigger] a[i], b[i]),
        forall|i: int| 0 <= i < b.len() ==> up_to(#[trigger] b[i], 1330),
    ensures
        twice(sum64(a), sum64(b)),
    decreases a.len(),
{
    lemma_bounded_sum(b, 1330);
    if a.len() == 0 {
        lemma_empty_sum64();
        lemma_size_zero(empty_sum64());
    } else {
        let (c, d) = (a.drop_last(), b.drop_last());
        assert forall|i: int| 0 <= i < c.len() implies twice(#[trigger] c[i], d[i]) by {
            assert(twice(a[i], b[i]));
        }
        assert forall|i: int| 0 <= i < d.len() implies up_to(#[trigger] d[i], 1330) by {
            assert(up_to(b[i], 1330));
        }
        lemma_doubled_sums(c, d);
        assert(twice(a[a.len() - 1], b[a.len() - 1]));
        lemma_twice_sum(sum64(c), sum64(d), a.last(), b.last());
    }
}

/// A finite single-precision number is zero, or at least 2^-149.
pub proof fn lemma_single_sizes(x: Binary32)
    requires
        x.finite(),
    ensures
        up_to(x.as_binary64(), 1202),
        size(x.as_binary64()) == 0 || size(x.as_binary64()) >= pow2(925),
{
    lemma_single_up_to(x);
    if x.rank() != 0 {
        lemma_single_at_least(x);
    } else {
        x.widens_to_nothing();
        lemma_size_zero(x.as_binary64());
    }
}

/// The product of two such numbers, one of them doubled.
proof fn lemma_single_product(x: Binary64, x2: Binary64, z: Binary64)
    requires
        twice(x, x2),
        up_to(x2, 1202),
        up_to(z, 1202),
        size(x) == 0 || size(x) >= pow2(925),
        size(z) == 0 || size(z) >= pow2(925),
    ensures
        twice(x.times(z), x2.times(z)),
        up_to(x2.times(z), 1330),
{
    lemma_product_up_to(x2, z, 1202, 1202);
    if size(x) != 0 && size(z) != 0 {
        lemma_pow2_adds(925, 925);
        lemma_pow2_strictly_increases(1127, 1850);
        assert(size(x) * size(z) >= pow2(925) * pow2(925)) by (nonlinear_arith)
            requires
                size(x) >= pow2(925),
                size(z) >= pow2(925),
        ;
    }
    lemma_twice_product(x, x2, z);
}

/// The inner product with a doubled vector is doubled.
proof fn lemma_doubled_dot(g: Seq<Binary32>, h: Seq<Binary32>, s: Seq<Binary32>)
    requires
        doubles(g, h),
        s.len() == g.len(),
        all_finite(s),
    ensures
        twice(dot64(g, s), dot64(h, s)),
        twice(dot64(s, g), dot64(s, h)),
        up_to(dot64(h, s), 1384),
{
    let (a, b) = (products64(g, s), products64(h, s));
    let (c, d) = (products64(s, g), products64(s, h));
    assert forall|i: int| 0 <= i < a.len() implies twice(#[trigger] a[i], b[i]) && up_to(
        b[i],
        1330,
    ) && a[i] == c[i] && b[i] == d[i] by {
        assert(g[i].finite() && h[i].finite() && s[i].finite());
        assert(twice(g[i].as_binary64(), h[i].as_binary64()));
        lemma_single_sizes(g[i]);
        lemma_single_sizes(h[i]);
        lemma_single_sizes(s[i]);
        lemma_single_product(g[i].as_binary64(), h[i].as_binary64(), s[i].as_binary64());
        g[i].as_binary64().times_commutes(s[i].as_binary64());
        h[i].as_binary64().times_commutes(s[i].as_binary64());
    }
    assert(a =~= c);
    assert(b =~= d) by {
        assert forall|i: int| 0 <= i < b.len() implies b[i] == d[i] by {
            assert(a[i] == c[i]);
        }
    }
    assert forall|i: int| 0 <= i < b.len() implies up_to(#[trigger] b[i], 1330) by {
        assert(twice(a[i], b[i]));
    }
    lemma_doubled_sums(a, b);
    lemma_bounded_sum(b, 1330);
}

/// The inner product of finite vectors is a bounded multiple of 2^-298.
pub proof fn lemma_dot_multiple(a: Seq<Binary32>, b: Seq<Binary32>)
    requires
        a.len() == b.len(),
        all_finite(a),
        all_finite(b),
    ensures
        is_multiple(dot64(a, b), 776),
        up_to(dot64(a, b), 1384),
{
    let s = products64(a, b);
    assert forall|i: int| 0 <= i < s.len() implies up_to(#[trigger] s[i], 1330) && is_multiple(
        s[i],
        776,
    ) by {
        assert(a[i].finite() && b[i].finite());
        lemma_single_up_to(a[i]);
        lemma_single_up_to(b[i]);
        lemma_product_up_to(a[i].as_binary64(), b[i].as_binary64(), 1202, 1202);
        lemma_single_multiple(a[i]);
        lemma_single_multiple(b[i]);
        lemma_multiple_product(a[i].as_binary64(), b[i].as_binary64());
    }
    lemma_bounded_sum(s, 1330);
    lemma_sum_multiple(s);
}

proof fn lemma_sum_multiple(s: Seq<Binary64>)
    requires
        forall|i: int|
            0 <= i < s.len() ==> up_to(#[trigger] s[i], 1330) && is_multiple(s[i], 776),
    ensures
        is_multiple(sum64(s), 776),
    decreases s.len(),
{
    assert forall|i: int| 0 <= i < s.len() implies up_to(#[trigger] s[i], 1330) by {
        assert(is_multiple(s[i], 776));
    }
    lemma_bounded_sum(s, 1330);
    if s.len() == 0 {
        lemma_empty_sum64();
        lemma_size_zero(empty_sum64());
        assert(size(empty_sum64()) == 0 * pow2(776));
    } else {
        let rest = s.drop_last();
        assert forall|i: int| 0 <= i < rest.len() implies up_to(#[trigger] rest[i], 1330)
            && is_multiple(rest[i], 776) by {
            assert(is_multiple(s[i], 776));
        }
        lemma_sum_multiple(rest);
        assert(is_multiple(s[s.len() - 1], 776));
        lemma_multiple_sum(sum64(rest), s.last(), 776);
    }
}

/// The length of a finite vector is zero with its square, or between 2^-149
/// and 2^155.
pub proof fn lemma_norm_sizes(a: Seq<Binary32>)
    requires
        all_finite(a),
    ensures
        is_length64(dot64(a, a)),
        up_to(dot64(a, a), 1384),
        norm64(a).finite(),
        is_length64(norm64(a)),
        dot64(a, a).rank() == 0 <==> norm64(a).rank() == 0,
        norm64(a).rank() != 0 ==> at_least(norm64(a), 925) && up_to(norm64(a), 1229),
{
    assert forall|i: int| 0 <= i < a.len() implies !(#[trigger] a[i]).nan() by {
        assert(a[i].finite());
        a[i].finite_is_a_number();
    }
    lemma_norm_is_length(a);
    lemma_dot_multiple(a, a);
    let d = dot64(a, a);
    lemma_size_zero(d);
    if d.rank() > 0 {
        lemma_multiple_at_least(d, 776);
        lemma_root_up_to(d, 692);
        lemma_root_at_least(d, 388);
        lemma_at_least_not_zero(norm64(a), 925);
    } else {
        d.root_of_a_length();
        d.root_of_nothing();
    }
}

/// A doubled update earns the same trust and contributes the same.
proof fn lemma_doubled_contribution(
    g: Seq<Binary32>,
    h: Seq<Binary32>,
    server: Seq<Binary32>,
    acc: Seq<Binary64>,
)
    requires
        doubles(g, h),
        server.len() == g.len(),
        acc.len() == g.len(),
        all_numbers(server),
    ensures
        is_zero64(norm64(g)) == is_zero64(norm64(h)),
        trust_score(g, server).at_most(Binary64::nothing()) == trust_score(h, server).at_most(
            Binary64::nothing(),
        ),
        !trust_score(g, server).at_most(Binary64::nothing()) && !is_zero64(norm64(g)) ==> {
            &&& trust_score(h, server) == trust_score(g, server)
            &&& plus_rescaled(
                acc,
                trust_score(h, server).times(norm64(server).over(norm64(h))),
                h,
            ) == plus_rescaled(
                acc,
                trust_score(g, server).times(norm64(server).over(norm64(g))),
                g,
            )
        },
{
    lemma_empty_sum64();
    lemma_norm_sizes(g);
    lemma_norm_sizes(h);
    lemma_doubled_dot(g, h, g);
    lemma_doubled_dot(g, h, h);
    let (gg, gh, hh) = (dot64(g, g), dot64(g, h), dot64(h, h));
    lemma_size_zero(gg);
    lemma_size_zero(hh);
    let (ng, nh) = (norm64(g), norm64(h));
    assert forall|i: int| 0 <= i < g.len() implies !(#[trigger] g[i]).nan() by {
        assert(g[i].finite());
        g[i].finite_is_a_number();
    }
    assert forall|i: int| 0 <= i < h.len() implies !(#[trigger] h[i]).nan() by {
        assert(h[i].finite());
        h[i].finite_is_a_number();
    }
    if !all_finite(server) {
        lemma_overflow_earns_nothing(g, server);
        lemma_overflow_earns_nothing(h, server);
    } else {
        lemma_norm_sizes(server);
        let ns = norm64(server);
        if ng.rank() != 0 {
            lemma_twice_root(gg, gh, hh);
            if ns.rank() != 0 {
                lemma_doubled_trust(g, h, server);
                if !trust_score(g, server).at_most(Binary64::nothing()) {
                    let t = trust_score(g, server);
                    let (a, b) = (t.times(ns.over(nh)), t.times(ns.over(ng)));
                    let (p, q) = (plus_rescaled(acc, a, h), plus_rescaled(acc, b, g));
                    assert forall|i: int| 0 <= i < p.len() implies p[i] == q[i] by {
                        assert(twice(g[i].as_binary64(), h[i].as_binary64()));
                        lemma_same_product(a, b, g[i].as_binary64(), h[i].as_binary64());
                    }
                    assert(p =~= q);
                }
            }
        }
    }
}

/// The trust of a doubled update, and the factor it is scaled by.
proof fn lemma_doubled_trust(g: Seq<Binary32>, h: Seq<Binary32>, server: Seq<Binary32>)
    requires
        doubles(g, h),
        server.len() == g.len(),
        all_finite(server),
        norm64(g).rank() != 0,
        norm64(server).rank() != 0,
        twice(norm64(g), norm64(h)),
    ensures
        trust_score(h, server) == trust_score(g, server),
        !trust_score(g, server).at_most(Binary64::nothing()) ==> twice(
            trust_score(g, server).times(norm64(server).over(norm64(h))),
            trust_score(g, server).times(norm64(server).over(norm64(g))),
        ),
{
    lemma_empty_sum64();
    lemma_norm_sizes(g);
    lemma_norm_sizes(h);
    lemma_norm_sizes(server);
    lemma_doubled_dot(g, h, server);
    lemma_dot_multiple(g, server);
    let (ng, nh, ns) = (norm64(g), norm64(h), norm64(server));
    lemma_size_zero(ng);
    lemma_size_zero(nh);
    lemma_size_zero(ns);
    lemma_product_up_to(nh, ns, 1229, 1229);
    lemma_pow2_adds(925, 925);
    lemma_pow2_strictly_increases(1127, 1850);
    assert(size(ng) * size(ns) >= pow2(925) * pow2(925)) by (nonlinear_arith)
        requires
            size(ng) >= pow2(925),
            size(ns) >= pow2(925),
    ;
    lemma_twice_product(ng, nh, ns);
    lemma_product_up_to(ng, ns, 1229, 1229);
    lemma_product_at_least(ng, ns, 925, 925);
    lemma_pow2_pos(776);
    lemma_same_quotient(dot64(g, server), dot64(h, server), ng.times(ns), nh.times(ns));
    assert(cosine64(g, server) == cosine64(h, server));
    let t = trust_score(g, server);
    if !t.at_most(Binary64::nothing()) {
        let dot = dot64(g, server);
        if size(dot) == 0 {
            lemma_zero_quotient(dot, ng.times(ns));
            lemma_size_zero(cosine64(g, server));
            cosine64(g, server).finite_is_a_number();
        }
        lemma_multiple_at_least(dot, 776);
        // the trust lies far above the smallest number
        lemma_quotient_up_to(dot, ng.times(ns), 1384, 776);
        lemma_quotient_at_least(dot, ng.times(ns), 776, 1384);
        assert(t == cosine64(g, server));
        let (small, large) = (ns.over(nh), ns.over(ng));
        lemma_quotient_up_to(ns, ng, 1229, 925);
        lemma_quotient_up_to(ns, nh, 1229, 925);
        lemma_quotient_at_least(ns, nh, 925, 1229);
        lemma_pow2_adds(925, 1074);
        lemma_pow2_adds(53, 1229);
        lemma_pow2_strictly_increases(1282, 1999);
        lemma_pow2_pos(1074);
        assert(size(ns) * pow2(1074) >= pow2(53) * size(nh)) by (nonlinear_arith)
            requires
                size(ns) >= pow2(925),
                size(nh) <= pow2(1229),
                pow2(925) * pow2(1074) >= pow2(53) * pow2(1229),
        ;
        lemma_half_quotient(ns, ng, nh);
        lemma_product_up_to(large, t, 1378, 1682);
        lemma_pow2_adds(770, 466);
        lemma_pow2_strictly_increases(1127, 1236);
        assert(size(small) * size(t) >= pow2(770) * pow2(466)) by (nonlinear_arith)
            requires
                size(small) >= pow2(770),
                size(t) >= pow2(466),
        ;
        lemma_twice_product(small, large, t);
        small.times_commutes(t);
        large.times_commutes(t);
    }
}

/// Whether `h` points the way of `g` and is exactly `pow2(k)` times as long.
pub open spec fn scales(g: Seq<Binary32>, h: Seq<Binary32>, k: nat) -> bool {
    &&& g.len() == h.len()
    &&& all_finite(g)
    &&& all_finite(h)
    &&& forall|i: int|
        0 <= i < g.len() ==> Format::Single.negative((#[trigger] g[i]).bits as nat)
            == Format::Single.negative(h[i].bits as nat) && size32(h[i]) == pow2(k) * size32(g[i])
}

/// A single-precision number and its double.
spec fn double_of(x: Binary32) -> Binary32 {
    let f = Format::Single;
    Binary32 {
        bits: f.pack(
            f.negative(x.bits as nat),
            doubled(f, f.magnitude(x.bits as nat)),
        ) as u32,
    }
}

/// Widening keeps the sign, and the size but for the unit.
proof fn lemma_widened_size(x: Binary32)
    requires
        x.finite(),
    ensures
        x.as_binary64().finite(),
        Format::Double.negative(x.as_binary64().bits as nat) == Format::Single.negative(
            x.bits as nat,
        ),
        size(x.as_binary64()) == size32(x) * pow2(925),
{
    let (s, d) = (Format::Single, Format::Double);
    x.widening_is_exact();
    reveal(Binary32::finite);
    reveal(Binary32::as_binary64);
    lemma_sizes(s);
    lemma_sizes(d);
    lemma_converted(s, d, x.bits as nat);
    let k = size32(x);
    assert(-(k as int) * pow2(925) == -((k * pow2(925)) as int)) by (nonlinear_arith);
}

/// The double of a number that can be scaled up further is a number.
proof fn lemma_double_of(x: Binary32, y: Binary32, k: nat)
    requires
        x.finite(),
        y.finite(),
        size32(y) == pow2(k + 1) * size32(x),
    ensures
        double_of(x).finite(),
        Format::Single.negative(double_of(x).bits as nat) == Format::Single.negative(
            x.bits as nat,
        ),
        size32(double_of(x)) == 2 * size32(x),
        size32(y) == pow2(k) * size32(double_of(x)),
        twice(x.as_binary64(), double_of(x).as_binary64()),
{
    let f = Format::Single;
    reveal(Binary32::finite);
    lemma_sizes(f);
    let (a, b) = (f.magnitude(x.bits as nat), f.magnitude(y.bits as nat));
    let c = doubled(f, a);
    lemma_doubled(f, a);
    lemma_pow2_unfold(k + 1);
    lemma_pow2_pos(k);
    let (u, p) = (f.units(a), pow2(k));
    assert((2 * p) * u == p * (2 * u)) by (nonlinear_arith);
    assert(p * (2 * u) >= 2 * u) by (nonlinear_arith)
        requires
            p >= 1,
            u >= 0,
    ;
    if c >= f.inf() {
        lemma_units_monotone(f, f.inf(), c);
        lemma_units_strictly_monotone(f, b, f.inf());
    }
    lemma_pack(f, f.negative(x.bits as nat), c);
    lemma_widened_size(x);
    lemma_widened_size(double_of(x));
    let w = pow2(925);
    assert((2 * u) * w == 2 * (u * w)) by (nonlinear_arith);
}

/// An update scaled by a power of two earns the same trust and contributes
/// the same.
proof fn lemma_scaled_contribution(
    g: Seq<Binary32>,
    h: Seq<Binary32>,
    k: nat,
    server: Seq<Binary32>,
    acc: Seq<Binary64>,
)
    requires
        scales(g, h, k),
        server.len() == g.len(),
        acc.len() == g.len(),
        all_numbers(server),
    ensures
        is_zero64(norm64(g)) == is_zero64(norm64(h)),
        trust_score(g, server).at_most(Binary64::nothing()) == trust_score(h, server).at_most(
            Binary64::nothing(),
        ),
        !trust_score(g, server).at_most(Binary64::nothing()) && !is_zero64(norm64(g)) ==> {
            &&& trust_score(h, server) == trust_score(g, server)
            &&& plus_rescaled(
                acc,
                trust_score(h, server).times(norm64(server).over(norm64(h))),
                h,
            ) == plus_rescaled(
                acc,
                trust_score(g, server).times(norm64(server).over(norm64(g))),
                g,
            )
        },
    decreases k,
{
    if k == 0 {
        lemma2_to64();
        assert forall|i: int| 0 <= i < g.len() implies g[i] == h[i] by {
            assert(g[i].finite() && h[i].finite());
            lemma_widened_size(g[i]);
            lemma_widened_size(h[i]);
            assert(Format::Single.negative(g[i].bits as nat) == Format::Single.negative(
                h[i].bits as nat,
            ));
            lemma_same(g[i].as_binary64(), h[i].as_binary64());
            g[i].widening_is_exact();
            h[i].widening_is_exact();
        }
        assert(g =~= h);
    } else {
        let d = Seq::new(g.len(), |i: int| double_of(g[i]));
        assert forall|i: int| 0 <= i < g.len() implies double_of(#[trigger] g[i]).finite() && twice(
            g[i].as_binary64(),
            double_of(g[i]).as_binary64(),
        ) && Format::Single.negative(double_of(g[i]).bits as nat) == Format::Single.negative(
            h[i].bits as nat,
        ) && size32(h[i]) == pow2((k - 1) as nat) * size32(double_of(g[i])) by {
            assert(g[i].finite() && h[i].finite());
            assert(size32(h[i]) == pow2(k) * size32(g[i]));
            lemma_double_of(g[i], h[i], (k - 1) as nat);
        }
        assert forall|i: int| 0 <= i < d.len() implies (#[trigger] d[i]).finite() by {
            assert(double_of(g[i]).finite());
        }
        assert(doubles(g, d));
        assert(scales(d, h, (k - 1) as nat)) by {
            assert forall|i: int| 0 <= i < d.len() implies Format::Single.negative(
                (#[trigger] d[i]).bits as nat,
            ) == Format::Single.negative(h[i].bits as nat) && size32(h[i]) == pow2((k - 1) as nat)
                * size32(d[i]) by {
                assert(double_of(g[i]).finite());
            }
        }
        lemma_doubled_contribution(g, d, server, acc);
        lemma_scaled_contribution(d, h, (k - 1) as nat, server, acc);
    }
}

proof fn lemma_scaled_sum(
    r: Reference,
    m: Seq<Seq<Binary32>>,
    i: int,
    w: Seq<Binary32>,
    p: nat,
    k: nat,
)
    requires
        k <= m.len(),
        0 <= i < m.len(),
        is_matrix(m, r.global.len()),
        w.len() == r.global.len(),
        r.trained.len() == r.global.len(),
        all_finite(r.global),
        all_finite(r.trained),
        scales(differences32(m[i], r.global), differences32(w, r.global), p),
    ensures
        trusted_sum(m, r.global, differences32(r.trained, r.global), k) == trusted_sum(
            m.update(i, w),
            r.global,
            differences32(r.trained, r.global),
            k,
        ),
        trusted_sum(m, r.global, differences32(r.trained, r.global), k).1.len() == r.global.len(),
    decreases k,
{
    if k > 0 {
        let h = (k - 1) as nat;
        lemma_scaled_sum(r, m, i, w, p, h);
        if h == i {
            let server = differences32(r.trained, r.global);
            lemma_differences(r.trained, r.global);
            assert(m[i].len() == r.global.len());
            lemma_scaled_contribution(
                differences32(m[i], r.global),
                differences32(w, r.global),
                p,
                server,
                trusted_sum(m, r.global, server, h).1,
            );
        } else {
            assert(m.update(i, w)[h as int] == m[h as int]);
        }
    }
}

/// Size buys no influence: where one update moves a power of two times as far
/// in the same direction, the result is the same, to the last bit. (Any other
/// factor is lost to the rounding of the update itself.)
pub proof fn size_buys_no_influence(
    r: Reference,
    m: Seq<Seq<Binary32>>,
    i: int,
    w: Seq<Binary32>,
    k: nat,
)
    requires
        0 <= i < m.len(),
        is_matrix(m, r.global.len()),
        w.len() == r.global.len(),
        r.trained.len() == r.global.len(),
        all_finite(r.global),
        all_finite(r.trained),
        scales(differences32(m[i], r.global), differences32(w, r.global), k),
    ensures
        trusted_round(r, m.update(i, w)) == trusted_round(r, m),
{
    lemma_scaled_sum(r, m, i, w, k, m.len());
}

/// Direction earns influence, size does not: the factor by which an update is
/// rescaled makes its length that of the server's own move, but for one
/// rounding.
pub proof fn updates_are_brought_to_the_length_of_the_reference(
    g: Seq<Binary32>,
    server: Seq<Binary32>,
)
    requires
        all_finite(g),
        all_finite(server),
        !is_zero64(norm64(g)),
    ensures
        norm64(server).over(norm64(g)).finite(),
        nearly(
            Format::Double,
            size(norm64(server).over(norm64(g))) * size(norm64(g)),
            size(norm64(server)) * pow2(1074),
            1,
        ),
        nearly(
            Format::Double,
            size(norm64(server)) * pow2(1074),
            size(norm64(server).over(norm64(g))) * size(norm64(g)),
            2,
        ),
{
    lemma_empty_sum64();
    lemma_norm_sizes(g);
    lemma_norm_sizes(server);
    let (ng, ns) = (norm64(g), norm64(server));
    lemma_size_zero(ng);
    lemma_size_zero(ns);
    if ns.rank() == 0 {
        lemma_zero_quotient(ns, ng);
    } else {
        lemma_quotient_up_to(ns, ng, 1229, 925);
        lemma_pow2_adds(925, 1074);
        lemma_pow2_adds(53, 1229);
        lemma_pow2_strictly_increases(1282, 1999);
        lemma_pow2_pos(1074);
        assert(size(ns) * pow2(1074) >= pow2(53) * size(ng)) by (nonlinear_arith)
            requires
                size(ns) >= pow2(925),
                size(ng) <= pow2(1229),
                pow2(925) * pow2(1074) >= pow2(53) * pow2(1229),
        ;
    }
    lemma_over_slip(ns, ng);
}

} // verus!
