//! How far a round moves the model.
//!
//! Each bound holds of the step in double precision, but for so many
//! roundings. The new model is the old one and the step, each coordinate
//! rounded to single precision.
use vstd::prelude::*;
use vstd::arithmetic::power2::*;
use vstd::arithmetic::mul::*;
use crate::delta::Delta;
use crate::float::binary32::Binary32;
use crate::float::binary64::Binary64;
use crate::float::format::Format;
use crate::float::laws::lemma_one;
use crate::float::scale::{at_least, lemma_at_most_one_up_to, lemma_negated_up_to, lemma_product_at_least, lemma_product_up_to, lemma_quotient_at_least, lemma_quotient_up_to, lemma_single_at_least, lemma_single_up_to, lemma_sizes_ordered, lemma_sum_up_to, lemma_up_to_more, size, up_to};
use crate::float::slip::{lemma_nearly_at_most, lemma_nearly_cancelled, lemma_nearly_chain, lemma_nearly_more, lemma_nearly_product, lemma_nearly_scaled, lemma_over_slip, lemma_plus_slip, lemma_times_slip, lemma_nearly_zero, lemma_whole_slip, nearly, sum_size};
use crate::float::twice::{is_multiple, lemma_large_multiple, lemma_multiple_at_least, lemma_multiple_sum, lemma_negated_multiple, lemma_single_multiple, lemma_size_zero, lemma_zero_multiple, lemma_zero_quotient};
use crate::laws::clipping::{clipping_brings_clients_within_the_radius, clipping_keeps_a_fraction, lemma_clipped_sum, lemma_distance};
use crate::laws::confidence::{all_numbers, lemma_contribution, lemma_differences, lemma_empty_sum64, lemma_norm_exponent, lemma_overflow_earns_nothing, lemma_trusted_sum};
use crate::laws::finite::lemma_even_mean;
use crate::laws::length::{is_plain, lemma_added_length, lemma_large_product, lemma_length_covers, lemma_scaled_length, sizes, square, squares};
use crate::laws::scaling::{lemma_dot_multiple, lemma_norm_sizes, lemma_single_sizes};
use crate::linear::{differences32, distance_squared64, dot64, products64, squared_differences64, zeros64};
use crate::temporal::clipping::{clip_center, clip_scale, clipped_round, clipped_sum, clipping_step};
use crate::trusted::fltrust::{cosine64, is_zero64, norm64, trust_score, trusted_round, trusted_sum, Reference};
use crate::weights::{accepted_batches_are_fit, all_finite, is_matrix, validated};

verus! {

/// A client's deviation from the center, in double precision.
spec fn deviation(w: Seq<Binary32>, v: Seq<Binary32>) -> Seq<Binary64> {
    Seq::new(w.len(), |j: int| w[j].as_binary64().minus(v[j].as_binary64()))
}

/// A deviation is zero, or neither tiny nor huge.
proof fn lemma_deviation(u: Binary32, v: Binary32)
    requires
        u.finite(),
        v.finite(),
    ensures
        up_to(u.as_binary64().minus(v.as_binary64()), 1256),
        size(u.as_binary64().minus(v.as_binary64())) == 0 || size(
            u.as_binary64().minus(v.as_binary64()),
        ) >= pow2(925),
{
    lemma_single_up_to(u);
    lemma_single_up_to(v);
    lemma_negated_up_to(v.as_binary64(), 1202);
    lemma_up_to_more(u.as_binary64(), 1202, 1256);
    lemma_sum_up_to(u.as_binary64(), v.as_binary64().negated(), 1202);
    lemma_single_multiple(u);
    lemma_single_multiple(v);
    lemma_negated_multiple(v.as_binary64(), 925);
    lemma_multiple_sum(u.as_binary64(), v.as_binary64().negated(), 925);
    let d = u.as_binary64().minus(v.as_binary64());
    if size(d) > 0 {
        lemma_multiple_at_least(d, 925);
    }
}

/// What is kept of a deviation is nothing, or not too little.
proof fn lemma_kept_fraction(radius: Binary32, w: Seq<Binary32>, v: Seq<Binary32>)
    requires
        radius.finite(),
        0 <= radius.rank(),
        w.len() == v.len(),
        all_finite(w),
        all_finite(v),
    ensures
        ({
            let scale = clip_scale(radius, distance_squared64(w, v).root());
            up_to(scale, 1074) && (size(scale) == 0 || size(scale) >= pow2(716))
        }),
{
    lemma_distance(w, v);
    let distance = distance_squared64(w, v).root();
    let scale = clip_scale(radius, distance);
    clipping_keeps_a_fraction(radius, distance);
    lemma_at_most_one_up_to(scale);
    Binary64::unit().unsigned_patterns();
    Binary64::nothing().zeros();
    Binary64::nothing().finite_is_a_number();
    distance.finite_is_a_number();
    lemma_one(Format::Double);
    lemma_pow2_strictly_increases(716, 1074);
    if scale != Binary64::unit() {
        let q = radius.as_binary64().over(distance);
        assert(scale == q);
        radius.widening_is_exact();
        lemma_size_zero(distance);
        if radius.rank() == 0 {
            radius.widens_to_nothing();
            lemma_size_zero(radius.as_binary64());
            lemma_zero_quotient(radius.as_binary64(), distance);
        } else {
            lemma_single_at_least(radius);
            lemma_quotient_at_least(radius.as_binary64(), distance, 925, 1283);
        }
    }
}

/// What is kept of a client's deviation.
spec fn kept(radius: Binary32, w: Seq<Binary32>, v: Seq<Binary32>) -> Seq<Binary64> {
    let scale = clip_scale(radius, distance_squared64(w, v).root());
    Seq::new(w.len(), |j: int| w[j].as_binary64().minus(v[j].as_binary64()).times(scale))
}

/// What is kept of a client's deviation is no longer than the radius.
proof fn lemma_kept_length(radius: Binary32, w: Seq<Binary32>, v: Seq<Binary32>)
    requires
        radius.finite(),
        0 <= radius.rank(),
        w.len() == v.len(),
        all_finite(w),
        all_finite(v),
    ensures
        nearly(
            Format::Double,
            square(sizes(kept(radius, w, v))),
            size(radius.as_binary64()) * size(radius.as_binary64()),
            2 * w.len() + 11,
        ),
        forall|j: int|
            0 <= j < w.len() ==> (#[trigger] kept(radius, w, v)[j]).finite() && is_multiple(
                kept(radius, w, v)[j],
                514,
            ),
{
    let f = Format::Double;
    let dev = deviation(w, v);
    let distance = distance_squared64(w, v).root();
    let scale = clip_scale(radius, distance);
    let k = kept(radius, w, v);
    let (u, sc, d, r) = (pow2(1074), size(scale), size(distance), size(radius.as_binary64()));
    lemma_kept_fraction(radius, w, v);
    lemma_distance(w, v);
    lemma_pow2_strictly_increases(600, 925);
    assert(squares(dev) =~= squared_differences64(w, v));
    assert forall|j: int| 0 <= j < dev.len() implies is_plain(#[trigger] dev[j]) by {
        assert(w[j].finite() && v[j].finite());
        lemma_deviation(w[j], v[j]);
    }
    assert forall|j: int| 0 <= j < w.len() implies nearly(
        f,
        #[trigger] sizes(k)[j] * u,
        sizes(dev)[j] * sc,
        1,
    ) && k[j].finite() && is_multiple(k[j], 514) by {
        assert(w[j].finite() && v[j].finite());
        lemma_deviation(w[j], v[j]);
        lemma_product_up_to(dev[j], scale, 1256, 1074);
        if size(dev[j]) != 0 && sc != 0 {
            lemma_large_product(size(dev[j]), sc, 925, 716, 1127);
            lemma_product_at_least(dev[j], scale, 925, 716);
            lemma_large_multiple(k[j], 514);
        }
        lemma_times_slip(dev[j], scale);
        if size(dev[j]) == 0 || sc == 0 {
            let (a, b) = (size(dev[j]), sc);
            assert(a * b == 0) by (nonlinear_arith)
                requires
                    a == 0 || b == 0,
            ;
            lemma_nearly_zero(f, size(k[j]) * u, 1);
            lemma_pow2_pos(1074);
            if size(k[j]) > 0 {
                lemma_mul_strictly_positive(size(k[j]) as int, u as int);
            }
            lemma_zero_multiple(k[j], 514);
        }
    }
    assert forall|j: int| 0 <= j < w.len() implies (#[trigger] k[j]).finite() && is_multiple(
        k[j],
        514,
    ) by {
        assert(nearly(f, sizes(k)[j] * u, sizes(dev)[j] * sc, 1));
    }
    lemma_scaled_length(f, sizes(k), sizes(dev), u, sc, 1);
    lemma_length_covers(dev);
    let (sk, sd) = (square(sizes(k)), square(sizes(dev)));
    let l = 2 * w.len() + 7;
    lemma_nearly_scaled(f, sd, d * d, sc * sc, l);
    lemma_nearly_chain(f, sk * (u * u), sd * (sc * sc), (d * d) * (sc * sc), 2, l);
    clipping_brings_clients_within_the_radius(radius, w, v);
    lemma_nearly_product(f, sc * d, r * u, sc * d, r * u, 1, 1);
    assert((d * d) * (sc * sc) == (sc * d) * (sc * d)) by (nonlinear_arith);
    assert((r * u) * (r * u) == (r * r) * (u * u)) by (nonlinear_arith);
    lemma_nearly_chain(
        f,
        sk * (u * u),
        (d * d) * (sc * sc),
        (r * r) * (u * u),
        2 + l,
        2,
    );
    lemma_pow2_pos(1074);
    lemma_mul_strictly_positive(u as int, u as int);
    lemma_nearly_cancelled(f, sk, r * r, u * u, 2 * w.len() + 11);
}

/// The deviations kept so far add up to no more than as many times the
/// radius.
proof fn lemma_sum_length(
    radius: Binary32,
    m: Seq<Seq<Binary32>>,
    v: Seq<Binary32>,
    k: nat,
)
    requires
        radius.finite(),
        0 <= radius.rank(),
        k <= m.len(),
        is_matrix(m, v.len()),
        all_finite(v),
        forall|i: int| 0 <= i < m.len() ==> all_finite(#[trigger] m[i]),
    ensures
        clipped_sum(radius, m, v, k).len() == v.len(),
        nearly(
            Format::Double,
            square(sizes(clipped_sum(radius, m, v, k))) * 1,
            (k * k) * (size(radius.as_binary64()) * size(radius.as_binary64())),
            2 * v.len() + 11 + 2 * k,
        ),
        forall|j: int|
            0 <= j < v.len() ==> is_multiple(#[trigger] clipped_sum(radius, m, v, k)[j], 514),
    decreases k,
{
    let f = Format::Double;
    let r = size(radius.as_binary64());
    let l = 2 * v.len() + 11;
    if k == 0 {
        let s = clipped_sum(radius, m, v, 0);
        assert(s == zeros64(v.len()));
        Binary64::nothing().zeros();
        lemma_size_zero(Binary64::nothing());
        assert forall|j: int| 0 <= j < v.len() implies is_multiple(#[trigger] s[j], 514) by {
            lemma_zero_multiple(s[j], 514);
        }
        lemma_zero_square(sizes(s));
        lemma_nearly_at_most(f, 0, (0 * 0) * (r * r), l);
    } else {
        let h = (k - 1) as nat;
        lemma_sum_length(radius, m, v, h);
        let w = m[h as int];
        assert(all_finite(w) && w.len() == v.len());
        lemma_kept_length(radius, w, v);
        let (s, x, y) = (
            clipped_sum(radius, m, v, h),
            kept(radius, w, v),
            clipped_sum(radius, m, v, k),
        );
        assert forall|j: int| 0 <= j < v.len() implies nearly(
            f,
            #[trigger] sizes(y)[j],
            sizes(s)[j] + sizes(x)[j],
            1,
        ) && is_multiple(y[j], 514) by {
            assert(is_multiple(s[j], 514));
            assert(x[j].finite() && is_multiple(x[j], 514));
            assert(y[j] == s[j].plus(x[j]));
            lemma_clipped_sum(radius, m, v, k, j);
            lemma_plus_slip(s[j], x[j]);
            let (a, b, c) = (
                size(y[j]),
                sum_size(s[j], x[j]),
                size(s[j]) + size(x[j]),
            );
            lemma_nearly_at_most(f, b, c, 0);
            lemma_nearly_chain(f, a, b, c, 1, 0);
            lemma_multiple_sum(s[j], x[j], 514);
        }
        assert forall|j: int| 0 <= j < v.len() implies is_multiple(#[trigger] y[j], 514) by {
            assert(nearly(f, sizes(y)[j], sizes(s)[j] + sizes(x)[j], 1));
        }
        let (rr, q) = (r * r, square(sizes(x)));
        lemma_nearly_more(f, q, rr, l, l + 2 * h);
        assert(q * 1 == q && (1 * 1) * rr == rr) by (nonlinear_arith);
        lemma_added_length(f, sizes(y), sizes(s), sizes(x), h, 1, 1, rr, l + 2 * h);
    }
}

/// A vector of zeros has no length.
pub proof fn lemma_zero_square(x: Seq<nat>)
    requires
        forall|j: int| 0 <= j < x.len() ==> #[trigger] x[j] == 0,
    ensures
        square(x) == 0,
    decreases x.len(),
{
    if x.len() > 0 {
        let rest = x.drop_last();
        assert forall|j: int| 0 <= j < rest.len() implies #[trigger] rest[j] == 0 by {
            assert(x[j] == 0);
        }
        lemma_zero_square(rest);
        let p = x.last();
        assert(x[x.len() - 1] == 0);
        assert(p * p == 0) by (nonlinear_arith)
            requires
                p == 0,
        ;
    }
}

/// The step of a round of centered clipping: the mean of what is kept of the
/// deviations.
pub open spec fn clipping_move(radius: Binary32, m: Seq<Seq<Binary32>>, v: Seq<Binary32>) -> Seq<
    Binary64,
> {
    Seq::new(
        v.len(),
        |j: int| clipped_sum(radius, m, v, m.len())[j].over(Binary64::whole(m.len())),
    )
}

/// A round of centered clipping moves the reference by no more than the
/// radius, whatever the clients submit: the new reference is the old one and
/// a step no longer than the radius, but for the roundings, of which there are
/// two for each coordinate and each client, and seventeen.
pub proof fn clipping_moves_at_most_the_radius(
    radius: Binary32,
    reference: Option<Seq<Binary32>>,
    batch: Seq<Delta>,
)
    requires
        radius.finite(),
        0 <= radius.rank(),
        0 < batch.len() <= usize::MAX,
        validated(batch) is Ok,
        reference is Some ==> all_finite(reference->0),
    ensures
        ({
            let m = validated(batch)->Ok_0;
            let v = clip_center(reference, m);
            let step = clipping_move(radius, m, v);
            let out = clipping_step((radius, reference), batch).0->Ok_0;
            &&& clipping_step((radius, reference), batch).0 is Ok
            &&& out.len() == v.len()
            &&& forall|j: int|
                0 <= j < v.len() ==> #[trigger] out[j] == v[j].as_binary64().plus(
                    step[j],
                ).as_binary32().held()
            &&& nearly(
                Format::Double,
                square(sizes(step)),
                size(radius.as_binary64()) * size(radius.as_binary64()),
                2 * v.len() + 2 * m.len() + 17,
            )
        }),
{
    reveal(clipping_step);
    accepted_batches_are_fit(batch);
    let f = Format::Double;
    let m = validated(batch)->Ok_0;
    let v = clip_center(reference, m);
    lemma_even_mean(m, m[0].len());
    let n = m.len();
    let (sum, step, whole) = (
        clipped_sum(radius, m, v, n),
        clipping_move(radius, m, v),
        Binary64::whole(n),
    );
    let out = clipped_round(radius, reference, m);
    let (u, r, w) = (pow2(1074), size(radius.as_binary64()), size(whole));
    lemma_sum_length(radius, m, v, n);
    lemma_whole_slip(n);
    lemma_pow2_pos(1074);
    assert forall|j: int| 0 <= j < v.len() implies nearly(
        f,
        #[trigger] sizes(step)[j] * n,
        sizes(sum)[j] * 1,
        3,
    ) by {
        lemma_clipped_sum(radius, m, v, n, j);
        assert(is_multiple(sum[j], 514));
        let (a, s) = (size(step[j]), size(sum[j]));
        lemma_quotient_up_to(sum[j], whole, 1310, 1074);
        if s > 0 {
            lemma_multiple_at_least(sum[j], 514);
            lemma_pow2_adds(514, 1074);
            lemma_pow2_adds(53, 1138);
            lemma_pow2_strictly_increases(1191, 1588);
            assert(s * u >= pow2(53) * w) by (nonlinear_arith)
                requires
                    s >= pow2(514),
                    w <= pow2(1138),
                    pow2(514) * u >= pow2(53) * pow2(1138),
            ;
        }
        lemma_over_slip(sum[j], whole);
        lemma_nearly_scaled(f, n * u, w, a, 2);
        lemma_nearly_chain(f, a * (n * u), a * w, s * u, 2, 1);
        assert(a * (n * u) == (a * n) * u) by (nonlinear_arith);
        lemma_nearly_cancelled(f, a * n, s, u, 3);
        assert(s * 1 == s);
    }
    lemma_scaled_length(f, sizes(step), sizes(sum), n, 1, 3);
    let (sq, ss) = (square(sizes(step)), square(sizes(sum)));
    let l = 2 * v.len() + 11 + 2 * n;
    assert(ss * (1 * 1) == ss && ss * 1 == ss) by (nonlinear_arith);
    lemma_nearly_chain(f, sq * (n * n), ss, (n * n) * (r * r), 6, l);
    assert((n * n) * (r * r) == (r * r) * (n * n)) by (nonlinear_arith);
    lemma_mul_strictly_positive(n as int, n as int);
    lemma_nearly_cancelled(f, sq, r * r, n * n, 6 + l);
}

/// A vector in double precision.
spec fn widened(g: Seq<Binary32>) -> Seq<Binary64> {
    Seq::new(g.len(), |j: int| g[j].as_binary64())
}

/// What an update that earns trust contributes.
spec fn contribution(g: Seq<Binary32>, server: Seq<Binary32>) -> Seq<Binary64> {
    let by = trust_score(g, server).times(norm64(server).over(norm64(g)));
    Seq::new(g.len(), |j: int| by.times(g[j].as_binary64()))
}

/// Whether an update earns trust.
spec fn is_trusted(g: Seq<Binary32>, server: Seq<Binary32>) -> bool {
    !trust_score(g, server).at_most(Binary64::nothing()) && !is_zero64(norm64(g))
}

/// The sizes of the numbers a contribution is made of.
proof fn lemma_trusted_sizes(g: Seq<Binary32>, server: Seq<Binary32>)
    requires
        g.len() == server.len(),
        all_finite(g),
        all_finite(server),
        is_trusted(g, server),
    ensures
        ({
            let t = trust_score(g, server);
            let sc = norm64(server).over(norm64(g));
            let by = t.times(sc);
            &&& norm64(g).finite() && size(norm64(g)) > 0
            &&& norm64(server).finite()
            &&& up_to(t, 1130) && at_least(t, 464) && t.rank() > 0
            &&& sc.finite() && by.finite() && at_least(by, 463)
            &&& nearly(
                Format::Double,
                size(sc) * size(norm64(g)),
                size(norm64(server)) * pow2(1074),
                1,
            )
            &&& nearly(Format::Double, size(by) * pow2(1074), size(t) * size(sc), 1)
        }),
{
    lemma_empty_sum64();
    lemma_finite_numbers(g);
    lemma_finite_numbers(server);
    lemma_contribution(g, server);
    lemma_norm_sizes(g);
    lemma_norm_sizes(server);
    let (ng, ns, t) = (norm64(g), norm64(server), trust_score(g, server));
    lemma_size_zero(ng);
    lemma_size_zero(ns);
    assert(ns.rank() != 0) by {
        if ns.rank() == 0 {
            ns.finite_is_a_number();
        }
    }
    let a = lemma_norm_exponent(g);
    let b = lemma_norm_exponent(server);
    let c = (a + b + 2 - 1074) as nat;
    let dot = dot64(g, server);
    lemma_dot_multiple(g, server);
    lemma_product_up_to(ng, ns, a + 1, b + 1);
    lemma_product_at_least(ng, ns, a, b);
    lemma_pow2_pos((a + b - 1074) as nat);
    let product = ng.times(ns);
    if size(dot) == 0 {
        lemma_zero_quotient(dot, product);
        lemma_size_zero(cosine64(g, server));
        cosine64(g, server).finite_is_a_number();
    }
    lemma_multiple_at_least(dot, 776);
    assert(t == cosine64(g, server));
    lemma_quotient_at_least(dot, product, 776, c);
    let e = (2922 - a - b) as nat;
    if e > 464 {
        lemma_pow2_strictly_increases(464, e);
    }
    let sc = ns.over(ng);
    lemma_quotient_up_to(ns, ng, b + 1, a);
    lemma_quotient_at_least(ns, ng, b, a + 1);
    let d = (b + 1073 - a) as nat;
    lemma_large_product(size(t), size(sc), e, d, 1127);
    lemma_product_up_to(t, sc, 1130, (b + 1 + 1074 - a) as nat);
    lemma_product_at_least(t, sc, e, d);
    let k = (e + d - 1074) as nat;
    if k > 463 {
        lemma_pow2_strictly_increases(463, k);
    }
    lemma_times_slip(t, sc);
    lemma_large_product(size(ns), pow2(1074), b, 1074, b + 1074);
    lemma_pow2_adds(53, a + 1);
    lemma_pow2_strictly_increases(53 + a + 1, b + 1074);
    lemma_mul_inequality(size(ng) as int, pow2(a + 1) as int, pow2(53) as int);
    lemma_mul_is_commutative(size(ng) as int, pow2(53) as int);
    lemma_mul_is_commutative(pow2(a + 1) as int, pow2(53) as int);
    lemma_over_slip(ns, ng);
}

proof fn lemma_finite_numbers(w: Seq<Binary32>)
    requires
        all_finite(w),
    ensures
        all_numbers(w),
{
    assert forall|i: int| 0 <= i < w.len() implies !(#[trigger] w[i]).nan() by {
        assert(w[i].finite());
        w[i].finite_is_a_number();
    }
}

/// What an update contributes is no longer than its trust times the length of
/// the server's own move.
proof fn lemma_contribution_length(g: Seq<Binary32>, server: Seq<Binary32>)
    requires
        g.len() == server.len(),
        all_finite(g),
        all_finite(server),
        is_trusted(g, server),
    ensures
        nearly(
            Format::Double,
            square(sizes(contribution(g, server))) * (pow2(1074) * pow2(1074)),
            (size(trust_score(g, server)) * size(trust_score(g, server))) * (size(norm64(server))
                * size(norm64(server))),
            2 * g.len() + 13,
        ),
        forall|j: int|
            0 <= j < g.len() ==> (#[trigger] contribution(g, server)[j]).finite() && is_multiple(
                contribution(g, server)[j],
                261,
            ),
{
    let f = Format::Double;
    lemma_trusted_sizes(g, server);
    lemma_finite_numbers(g);
    lemma_finite_numbers(server);
    lemma_contribution(g, server);
    let trust = trust_score(g, server);
    let scale = norm64(server).over(norm64(g));
    let factor = trust.times(scale);
    let (x, y) = (widened(g), contribution(g, server));
    let (u, t, sc, by, ng, ns) = (
        pow2(1074),
        size(trust),
        size(scale),
        size(factor),
        size(norm64(g)),
        size(norm64(server)),
    );
    lemma_pow2_pos(1074);
    lemma_pow2_pos(463);
    lemma_pow2_strictly_increases(600, 925);
    lemma_pow2_strictly_increases(1202, 1256);
    assert forall|j: int| 0 <= j < g.len() implies nearly(
        f,
        #[trigger] sizes(y)[j] * (u * ng),
        sizes(x)[j] * (t * ns),
        3,
    ) && y[j].finite() && is_multiple(y[j], 261) by {
        assert(g[j].finite());
        lemma_single_sizes(g[j]);
        assert(up_to(factor.times(g[j].as_binary64()), 1287));
        let (a, b) = (size(x[j]), size(y[j]));
        if a != 0 {
            lemma_large_product(by, a, 463, 925, 1127);
            lemma_product_at_least(factor, x[j], 463, 925);
            lemma_large_multiple(y[j], 261);
        }
        lemma_times_slip(factor, x[j]);
        if a == 0 {
            assert(by * a == 0) by (nonlinear_arith)
                requires
                    a == 0,
            ;
            lemma_nearly_zero(f, b * u, 1);
            if b > 0 {
                lemma_mul_strictly_positive(b as int, u as int);
            }
            lemma_zero_multiple(y[j], 261);
        }
        // by the factor, by the trust, by the length
        lemma_nearly_scaled(f, b * u, by * a, u * ng, 1);
        lemma_nearly_scaled(f, by * u, t * sc, a * ng, 1);
        lemma_nearly_scaled(f, sc * ng, ns * u, t * a, 1);
        assert((by * a) * (u * ng) == (by * u) * (a * ng)) by (nonlinear_arith);
        assert((t * sc) * (a * ng) == (sc * ng) * (t * a)) by (nonlinear_arith);
        lemma_nearly_chain(
            f,
            (b * u) * (u * ng),
            (by * u) * (a * ng),
            (sc * ng) * (t * a),
            1,
            1,
        );
        lemma_nearly_chain(
            f,
            (b * u) * (u * ng),
            (sc * ng) * (t * a),
            (ns * u) * (t * a),
            2,
            1,
        );
        assert((b * u) * (u * ng) == (b * (u * ng)) * u) by (nonlinear_arith);
        assert((ns * u) * (t * a) == (a * (t * ns)) * u) by (nonlinear_arith);
        lemma_nearly_cancelled(f, b * (u * ng), a * (t * ns), u, 3);
    }
    assert forall|j: int| 0 <= j < g.len() implies (#[trigger] y[j]).finite() && is_multiple(
        y[j],
        261,
    ) by {
        assert(nearly(f, sizes(y)[j] * (u * ng), sizes(x)[j] * (t * ns), 3));
    }
    lemma_scaled_length(f, sizes(y), sizes(x), u * ng, t * ns, 3);
    assert forall|j: int| 0 <= j < x.len() implies is_plain(#[trigger] x[j]) by {
        assert(g[j].finite());
        lemma_single_sizes(g[j]);
    }
    assert(squares(x) =~= products64(g, g));
    lemma_length_covers(x);
    let (sy, sx, l) = (square(sizes(y)), square(sizes(x)), 2 * g.len() + 7);
    let (uu, tn, nn, ug) = (u * u, t * ns, ng * ng, u * ng);
    lemma_nearly_scaled(f, sx, nn, tn * tn, l);
    lemma_nearly_chain(f, sy * (ug * ug), sx * (tn * tn), nn * (tn * tn), 6, l);
    assert(sy * (ug * ug) == (sy * uu) * nn) by (nonlinear_arith)
        requires
            ug == u * ng,
            uu == u * u,
            nn == ng * ng,
    ;
    let goal = (t * t) * (ns * ns);
    assert(nn * (tn * tn) == goal * nn) by (nonlinear_arith)
        requires
            tn == t * ns,
            goal == (t * t) * (ns * ns),
    ;
    lemma_mul_strictly_positive(ng as int, ng as int);
    lemma_nearly_cancelled(f, sy * uu, goal, nn, 6 + l);
}

/// Without a finite reference nobody earns trust.
proof fn lemma_no_reference(
    m: Seq<Seq<Binary32>>,
    global: Seq<Binary32>,
    server: Seq<Binary32>,
    k: nat,
)
    requires
        k <= m.len(),
        is_matrix(m, global.len()),
        all_finite(global),
        all_numbers(server),
        !all_finite(server),
        forall|i: int| 0 <= i < m.len() ==> all_finite(#[trigger] m[i]),
    ensures
        trusted_sum(m, global, server, k).0 == Binary64::nothing(),
    decreases k,
{
    if k > 0 {
        let h = (k - 1) as nat;
        lemma_no_reference(m, global, server, h);
        assert(all_finite(m[h as int]));
        assert(m[h as int].len() == global.len());
        lemma_differences(m[h as int], global);
        lemma_overflow_earns_nothing(differences32(m[h as int], global), server);
    }
}

/// What the trusted updates contributed so far is no longer than their trust
/// times the length of the server's own move.
proof fn lemma_trusted_length(
    m: Seq<Seq<Binary32>>,
    global: Seq<Binary32>,
    server: Seq<Binary32>,
    k: nat,
)
    requires
        k <= m.len(),
        is_matrix(m, global.len()),
        server.len() == global.len(),
        all_finite(global),
        all_finite(server),
        forall|i: int| 0 <= i < m.len() ==> all_finite(#[trigger] m[i]),
    ensures
        ({
            let (total, acc) = trusted_sum(m, global, server, k);
            &&& acc.len() == global.len()
            &&& 0 <= total.rank()
            &&& 0 < total.rank() ==> at_least(total, 464)
            &&& nearly(
                Format::Double,
                square(sizes(acc)) * (pow2(1074) * pow2(1074)),
                (size(total) * size(total)) * (size(norm64(server)) * size(norm64(server))),
                2 * global.len() + 13 + 6 * k,
            )
        }),
        forall|j: int|
            0 <= j < global.len() ==> is_multiple(
                #[trigger] trusted_sum(m, global, server, k).1[j],
                261,
            ),
    decreases k,
{
    let f = Format::Double;
    let (uu, ns) = (pow2(1074) * pow2(1074), size(norm64(server)));
    let bound = ns * ns;
    let l = 2 * global.len() + 13;
    lemma_empty_sum64();
    lemma_finite_numbers(server);
    lemma_trusted_sum(m, global, server, k);
    lemma_pow2_pos(1074);
    lemma_mul_strictly_positive(pow2(1074) as int, pow2(1074) as int);
    let (after, y) = trusted_sum(m, global, server, k);
    if k == 0 {
        assert(y == zeros64(global.len()));
        lemma_size_zero(Binary64::nothing());
        assert forall|j: int| 0 <= j < global.len() implies is_multiple(#[trigger] y[j], 261) by {
            lemma_zero_multiple(y[j], 261);
        }
        lemma_zero_square(sizes(y));
        assert(0 * uu == 0);
        lemma_nearly_at_most(f, 0, (size(after) * size(after)) * bound, l);
    } else {
        let h = (k - 1) as nat;
        lemma_trusted_length(m, global, server, h);
        lemma_trusted_sum(m, global, server, h);
        let (total, s) = trusted_sum(m, global, server, h);
        let w = m[h as int];
        assert(all_finite(w) && w.len() == global.len());
        let g = differences32(w, global);
        lemma_differences(w, global);
        if !is_trusted(g, server) {
            lemma_nearly_more(
                f,
                square(sizes(s)) * uu,
                (size(total) * size(total)) * bound,
                l + 6 * h,
                l + 6 * k,
            );
        } else {
            if !all_finite(g) {
                lemma_overflow_earns_nothing(g, server);
            }
            lemma_trusted_sizes(g, server);
            lemma_contribution_length(g, server);
            let (trust, x) = (trust_score(g, server), contribution(g, server));
            assert forall|j: int| 0 <= j < global.len() implies nearly(
                f,
                #[trigger] sizes(y)[j],
                sizes(s)[j] + sizes(x)[j],
                1,
            ) && is_multiple(y[j], 261) by {
                assert(is_multiple(s[j], 261));
                assert(x[j].finite() && is_multiple(x[j], 261));
                assert(y[j] == s[j].plus(x[j]));
                assert(up_to(y[j], 1341));
                lemma_plus_slip(s[j], x[j]);
                let (a, b, c) = (size(y[j]), sum_size(s[j], x[j]), size(s[j]) + size(x[j]));
                lemma_nearly_at_most(f, b, c, 0);
                lemma_nearly_chain(f, a, b, c, 1, 0);
                lemma_multiple_sum(s[j], x[j], 261);
            }
            assert forall|j: int| 0 <= j < global.len() implies is_multiple(#[trigger] y[j], 261) by {
                assert(nearly(f, sizes(y)[j], sizes(s)[j] + sizes(x)[j], 1));
            }
            let (a, b, c) = (size(total), size(trust), size(after));
            let p = l + 6 * h;
            lemma_nearly_more(f, square(sizes(x)) * uu, (b * b) * bound, l, p);
            lemma_added_length(f, sizes(y), sizes(s), sizes(x), a, b, uu, bound, p);
            // the trust in double precision is nearly the sum
            lemma_plus_slip(total, trust);
            let z = a + b;
            lemma_nearly_product(f, z, c, z, c, 2, 2);
            lemma_nearly_scaled(f, z * z, c * c, bound, 4);
            lemma_nearly_chain(
                f,
                square(sizes(y)) * uu,
                (z * z) * bound,
                (c * c) * bound,
                p + 2,
                4,
            );
            total.finite_is_a_number();
            trust.finite_is_a_number();
            total.plus_grows(trust);
            trust.plus_grows(total);
            total.plus_commutes(trust);
            lemma_sizes_ordered(trust, after);
        }
    }
}

/// The step of a round of FLTrust: the contributions over the trust.
pub open spec fn trusted_move(r: Reference, m: Seq<Seq<Binary32>>) -> Seq<Binary64> {
    let (total, acc) = trusted_sum(m, r.global, differences32(r.trained, r.global), m.len());
    Seq::new(r.global.len(), |j: int| acc[j].over(total))
}

/// A round of FLTrust moves the model by no more than the server's own move,
/// whatever the clients submit: the model stays as it is, or the new one is
/// the old one and a step no longer than the server's, but for the roundings,
/// of which there are two for each coordinate and six for each client, and
/// fifteen.
pub proof fn trust_moves_at_most_the_reference(r: Reference, m: Seq<Seq<Binary32>>)
    requires
        is_matrix(m, r.global.len()),
        r.trained.len() == r.global.len(),
        all_finite(r.global),
        all_finite(r.trained),
        forall|i: int| 0 <= i < m.len() ==> all_finite(#[trigger] m[i]),
    ensures
        ({
            let step = trusted_move(r, m);
            let out = trusted_round(r, m);
            let own = size(norm64(differences32(r.trained, r.global)));
            ||| out == r.global
            ||| {
                &&& out.len() == r.global.len()
                &&& forall|j: int|
                    0 <= j < out.len() ==> #[trigger] out[j] == r.global[j].as_binary64().plus(
                        step[j],
                    ).as_binary32().held()
                &&& nearly(
                    Format::Double,
                    square(sizes(step)),
                    own * own,
                    2 * r.global.len() + 6 * m.len() + 15,
                )
            }
        }),
{
    let f = Format::Double;
    let (global, server) = (r.global, differences32(r.trained, r.global));
    lemma_differences(r.trained, r.global);
    lemma_empty_sum64();
    let n = m.len();
    let (total, acc) = trusted_sum(m, global, server, n);
    if !all_finite(server) {
        lemma_no_reference(m, global, server, n);
    } else if !total.at_most(Binary64::nothing()) {
        lemma_trusted_sum(m, global, server, n);
        lemma_trusted_length(m, global, server, n);
        total.finite_is_a_number();
        let step = trusted_move(r, m);
        let (u, t, own) = (pow2(1074), size(total), size(norm64(server)));
        lemma_pow2_pos(464);
        assert forall|j: int| 0 <= j < global.len() implies nearly(
            f,
            #[trigger] sizes(step)[j] * t,
            sizes(acc)[j] * u,
            1,
        ) by {
            assert(up_to(acc[j], 1341));
            assert(is_multiple(acc[j], 261));
            lemma_quotient_up_to(acc[j], total, 1341, 464);
            let a = size(acc[j]);
            if a > 0 {
                lemma_multiple_at_least(acc[j], 261);
                lemma_pow2_adds(261, 1074);
                lemma_pow2_adds(53, 1184);
                lemma_pow2_strictly_increases(1237, 1335);
                assert(a * u >= pow2(53) * t) by (nonlinear_arith)
                    requires
                        a >= pow2(261),
                        t <= pow2(1184),
                        pow2(261) * u >= pow2(53) * pow2(1184),
                ;
            }
            lemma_over_slip(acc[j], total);
        }
        lemma_scaled_length(f, sizes(step), sizes(acc), t, u, 1);
        let (sq, sa, tt, l) = (
            square(sizes(step)),
            square(sizes(acc)),
            t * t,
            2 * global.len() + 13 + 6 * n,
        );
        lemma_nearly_chain(f, sq * tt, sa * (u * u), tt * (own * own), 2, l);
        assert(tt * (own * own) == (own * own) * tt) by (nonlinear_arith);
        lemma_mul_strictly_positive(t as int, t as int);
        lemma_nearly_cancelled(f, sq, own * own, tt, 2 + l);
    }
}

} // verus!
