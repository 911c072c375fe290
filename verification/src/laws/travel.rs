//! How far centered clipping, FLTrust and q-FedAvg move a model.
use vstd::prelude::*;
use vstd::arithmetic::mul::*;
use vstd::arithmetic::power2::*;
use crate::delta::Delta;
use crate::float::binary32::Binary32;
use crate::float::binary64::Binary64;
use crate::float::drift::{ceiling, far, lemma_far_product, lemma_minus_drift, lemma_top, lemma_val, pairs, total, val, weight};
use crate::float::format::Format;
use crate::float::laws::{lemma_sizes, lemma_unpack};
use crate::float::scale::{lemma_sizes_ordered, size};
use crate::float::slip::{lemma_nearly_at_most, lemma_over_slip, lemma_sizes32, lemma_whole_slip, nearly, size32};
use crate::float::twice::lemma_size_zero;
use crate::float::wide::{is_moved, lemma_moved, lemma_rough_more, lemma_rough_plus, lemma_rough_times, lemma_wide, lemma_wide_product, lemma_wide_quotient, lemma_wide_running, lemma_wide_sum, pairs64, rough, val64, vals64};
use crate::laws::clipping::{clipping_keeps_a_fraction, lemma_distance};
use crate::laws::confidence::lemma_empty_sum64;
use crate::laws::moments::{lemma_first_product, lemma_inputs, lemma_large_or_none, lemma_signs, lemma_single_within, lemma_square, lemma_values_ordered, lemma_within};
use crate::laws::principal::{lemma_total_scaled, lemma_weight_flat};
use crate::linear::{differences32, distance_squared64, dot64, empty_sum64, plus_quotients, products64, squared_differences64, sum64};
use crate::optimization::qfedavg::{curvature, effective_loss, fair_sums, loss_power, scaled_square, share_of_denominator, QFedAvgRule};
use crate::temporal::clipping::{clip_center, clip_scale, clipped_round, clipped_sum};
use crate::trusted::fltrust::{cosine64, is_zero64, norm64, trust_score, trusted_round, trusted_sum, Reference};
use crate::weights::{all_finite, is_matrix};

verus! {

/// The moves of the rows from `center` at coordinate `c`, in double precision.
pub open spec fn moves(m: Seq<Seq<Binary32>>, center: Seq<Binary32>, c: int) -> Seq<Binary64> {
    Seq::new(m.len(), |i: int| m[i][c].as_binary64().minus(center[c].as_binary64()))
}

/// What each client keeps of its deviation from `center`.
pub open spec fn kept_fractions(
    radius: Binary32,
    m: Seq<Seq<Binary32>>,
    center: Seq<Binary32>,
) -> Seq<Binary64> {
    Seq::new(
        m.len(),
        |i: int| clip_scale(radius, distance_squared64(m[i], center).root()),
    )
}

/// A client within the radius keeps all of its deviation; one beyond it keeps
/// as much as makes the radius, but for roundings.
pub proof fn clients_keep_what_the_radius_allows(
    radius: Binary32,
    w: Seq<Binary32>,
    v: Seq<Binary32>,
)
    requires
        radius.finite(),
        0 < radius.rank(),
        w.len() == v.len(),
        all_finite(w),
        all_finite(v),
    ensures
        distance_squared64(w, v).root().rank() <= radius.as_binary64().rank() ==> clip_scale(
            radius,
            distance_squared64(w, v).root(),
        ) == Binary64::unit(),
        nearly(
            Format::Double,
            if size(distance_squared64(w, v).root()) < size(radius.as_binary64()) {
                size(distance_squared64(w, v).root())
            } else {
                size(radius.as_binary64())
            } * pow2(1074),
            size(clip_scale(radius, distance_squared64(w, v).root())) * size(
                distance_squared64(w, v).root(),
            ),
            2,
        ),
{
    let f = Format::Double;
    let d = distance_squared64(w, v).root();
    let r = radius.as_binary64();
    let scale = clip_scale(radius, d);
    let one = Binary64::unit();
    let u = pow2(1074);
    lemma_distance(w, v);
    lemma_signs();
    lemma_wide(radius);
    lemma_pow2_pos(925);
    lemma_pow2_pos(1074);
    lemma_val(radius);
    lemma_sizes32(radius, radius);
    Binary64::nothing().zeros();
    Binary64::nothing().finite_is_a_number();
    d.finite_is_a_number();
    r.finite_is_a_number();
    one.unsigned_patterns();
    assert(size(one) == u && size(r) >= pow2(925)) by {
        reveal(Binary64::finite);
        lemma_sizes(f);
        lemma_unpack(f, one.bits as nat);
        lemma_unpack(f, r.bits as nat);
        lemma_unpack(f, d.bits as nat);
        lemma_sizes32(radius, radius);
        let s = size32(radius);
        let k = pow2(925);
        assert(s * k >= k) by (nonlinear_arith)
            requires
                s >= 1,
        ;
    }
    assert(0 < r.rank()) by {
        lemma_values_ordered(Binary64::nothing(), r);
        let s = val(radius);
        let k = pow2(925);
        assert(s * k > 0) by (nonlinear_arith)
            requires
                s > 0,
                k > 0,
        ;
    }
    if d.rank() == 0 {
        lemma_size_zero(d);
        assert(scale == one);
        assert(0 * u == 0 && size(scale) * 0 == 0);
        lemma_nearly_at_most(f, 0, 0, 2);
    } else {
        let q = r.over(d);
        if d.rank() <= r.rank() {
            // the quotient is at least one
            lemma_quotient_at_least_one(r, d);
            if q.rank() == one.rank() {
                q.ranks_tell_apart(one);
            }
            r.fractions_are_not_negative(d);
            assert(scale == one);
            lemma_sizes_ordered(d, r);
            let s = size(d);
            assert(u * s == s * u) by (nonlinear_arith);
            let least = if size(d) < size(r) {
                size(d)
            } else {
                size(r)
            };
            assert(least * u <= s * u) by (nonlinear_arith)
                requires
                    least <= s,
            ;
            lemma_nearly_at_most(f, least * u, s * u, 2);
        } else {
            lemma_sizes_ordered(r, d);
            r.ratio_at_most_one(d);
            r.fractions_are_not_negative(d);
            assert(size(r) * u >= pow2(53) * size(d)) by {
                lemma_pow2_adds(925, 1074);
                lemma_pow2_adds(53, 1283);
                lemma_pow2_strictly_increases(1336, 1999);
                lemma_mul_inequality(pow2(925) as int, size(r) as int, u as int);
                lemma_mul_inequality(size(d) as int, pow2(1283) as int, pow2(53) as int);
                lemma_mul_is_commutative(size(d) as int, pow2(53) as int);
                lemma_mul_is_commutative(pow2(1283) as int, pow2(53) as int);
            }
            lemma_over_slip(r, d);
            if scale == one {
                assert(u * size(d) >= size(r) * u) by (nonlinear_arith)
                    requires
                        size(d) >= size(r),
                ;
                lemma_nearly_at_most(f, size(r) * u, u * size(d), 2);
            }
        }
    }
}

/// A number over one that is no larger is at least one.
proof fn lemma_quotient_at_least_one(x: Binary64, y: Binary64)
    requires
        x.finite(),
        0 < x.rank(),
        y.finite(),
        0 < y.rank() <= x.rank(),
    ensures
        Binary64::unit().rank() <= x.over(y).rank(),
{
    x.itself_over_itself();
    x.finite_is_a_number();
    y.finite_is_a_number();
    assert(!x.signed() && !y.signed()) by {
        reveal(Binary64::rank);
        reveal(Binary64::signed);
    }
    x.larger_divisors_give_less(y, x);
}

/// A fraction of what it was, and a move, in exact numbers.
proof fn lemma_bounded_moves(
    by: Seq<Binary64>,
    m: Seq<Seq<Binary32>>,
    center: Seq<Binary32>,
    c: int,
    e: nat,
)
    requires
        by.len() == m.len(),
        is_matrix(m, center.len()),
        0 <= c < center.len(),
        center[c].finite(),
        forall|i: int| 0 <= i < m.len() ==> all_finite(#[trigger] m[i]),
        forall|i: int|
            0 <= i < by.len() ==> (#[trigger] by[i]).finite() && far(val64(by[i])) <= pow2(e),
    ensures
        forall|i: int| 0 <= i < m.len() ==> (#[trigger] moves(m, center, c)[i]).finite(),
        forall|i: int|
            0 <= i < m.len() ==> rough(
                val64(#[trigger] moves(m, center, c)[i]),
                (val(m[i][c]) - val(center[c])) * pow2(925),
                far(val(m[i][c]) - val(center[c])) * pow2(925),
                1,
            ),
        weight(pairs64(moves(m, center, c), by)) <= m.len() * pow2(e + 1204),
{
    let g = moves(m, center, c);
    assert forall|i: int| 0 <= i < m.len() implies (#[trigger] g[i]).finite() && rough(
        val64(g[i]),
        (val(m[i][c]) - val(center[c])) * pow2(925),
        far(val(m[i][c]) - val(center[c])) * pow2(925),
        1,
    ) && far(pairs64(g, by)[i]) <= pow2(e + 1204) by {
        assert(all_finite(m[i]));
        assert(m[i].len() == center.len());
        assert(m[i][c].finite());
        lemma_inputs(center[c], m[i][c], center[c]);
        let d = val(m[i][c]) - val(center[c]);
        lemma_within(far(d), pow2(925), 278, 925);
        lemma_far_product(d, pow2(925) as int);
        lemma_pow2_unfold(1204);
        assert(far(val64(g[i])) <= pow2(1204));
        assert(by[i].finite());
        lemma_far_product(val64(g[i]), val64(by[i]));
        lemma_within(far(val64(g[i])), far(val64(by[i])), 1204, e);
    }
    assert forall|i: int| 0 <= i < pairs64(g, by).len() implies far(#[trigger] pairs64(g, by)[i])
        <= pow2(e + 1204) by {
        assert(g[i].finite());
    }
    lemma_weight_flat(pairs64(g, by), pow2(e + 1204));
}

/// That the products leave room, where the divisor is at least 2^1000 units.
proof fn lemma_room(w: nat, n: nat, e: nat, t: int)
    requires
        w <= n * pow2(e + 1204),
        n <= 0x10_0000,
        e <= 1274,
        t >= pow2(1000),
    ensures
        w <= pow2(2070) * pow2(1074),
        2 * w + (n + 1) * pow2(1074) <= pow2(2080) * t,
{
    lemma2_to64();
    if e < 1274 {
        lemma_pow2_strictly_increases(e + 1204, 2478);
    }
    lemma_mul_upper_bound(n as int, pow2(20) as int, pow2(e + 1204) as int, pow2(2478) as int);
    lemma_pow2_adds(20, 2478);
    lemma_pow2_adds(2070, 1074);
    lemma_pow2_strictly_increases(2498, 3144);
    lemma_pow2_adds(2080, 1000);
    lemma_pow2_unfold(2499);
    lemma_pow2_unfold(2500);
    lemma_pow2_strictly_increases(2500, 3080);
    lemma_pow2_adds(21, 1074);
    lemma_pow2_strictly_increases(1095, 2499);
    lemma_mul_inequality((n + 1) as int, pow2(21) as int, pow2(1074) as int);
    lemma_mul_inequality(pow2(1000) as int, t, pow2(2080) as int);
    lemma_mul_is_commutative(pow2(1000) as int, pow2(2080) as int);
    lemma_mul_is_commutative(t, pow2(2080) as int);
}

/// Centered clipping moves every coordinate of its center by the mean of what
/// the clients keep of their deviations, but for roundings. (A coordinate that
/// rounding would take past the largest number is left out.)
pub proof fn clipping_moves_by_the_mean_of_what_is_kept(
    radius: Binary32,
    reference: Option<Seq<Binary32>>,
    m: Seq<Seq<Binary32>>,
    c: int,
)
    requires
        radius.finite(),
        0 <= radius.rank(),
        0 < m.len() <= 0x10_0000,
        is_matrix(m, m[0].len()),
        forall|i: int| 0 <= i < m.len() ==> all_finite(#[trigger] m[i]),
        0 <= c < m[0].len(),
        clip_center(reference, m).len() == m[0].len(),
        clip_center(reference, m)[c].finite(),
        clipped_round(radius, reference, m)[c].finite(),
        size32(clipped_round(radius, reference, m)[c]) < ceiling(),
    ensures
        is_moved(
            clipped_round(radius, reference, m)[c],
            clip_center(reference, m)[c],
            moves(m, clip_center(reference, m), c),
            kept_fractions(radius, m, clip_center(reference, m)),
            val64(Binary64::whole(m.len())),
        ),
{
    let v = clip_center(reference, m);
    let n = m.len();
    let by = kept_fractions(radius, m, v);
    let g = moves(m, v, c);
    let divisor = Binary64::whole(n);
    lemma_signs();
    lemma_whole_slip(n);
    Binary64::words_are_finite(n);
    lemma_count_value(n);
    assert forall|i: int| 0 <= i < by.len() implies (#[trigger] by[i]).finite() && far(
        val64(by[i]),
    ) <= pow2(1074) by {
        clipping_keeps_a_fraction(radius, distance_squared64(m[i], v).root());
        lemma_values_ordered(by[i], Binary64::nothing());
        lemma_values_ordered(Binary64::unit(), by[i]);
        Binary64::nothing().zeros();
    }
    lemma_bounded_moves(by, m, v, c, 1074);
    lemma_pow2_strictly_increases(1000, 1074);
    lemma_room(weight(pairs64(g, by)), n, 1074, val64(divisor));
    let acc = Seq::new(n + 1, |k: int| clipped_sum(radius, m, v, k as nat)[c]);
    assert forall|k: nat| k <= n implies (#[trigger] clipped_sum(radius, m, v, k)).len()
        == v.len() by {
        lemma_clipped_len(radius, m, v, k);
    }
    assert forall|k: int| 0 <= k < g.len() implies #[trigger] acc[k + 1] == acc[k].plus(
        g[k].times(by[k]),
    ) by {
        lemma_clipped_len(radius, m, v, k as nat);
    }
    assert(clipped_sum(radius, m, v, n)[c] == acc.last());
    lemma_clipped_len(radius, m, v, n);
    lemma_clipped_len(radius, m, v, 0);
    assert(acc[0] == Binary64::nothing());
    let raw = v[c].as_binary64().plus(acc.last().over(divisor)).as_binary32();
    assert(clipped_round(radius, reference, m)[c] == raw.held());
    lemma_not_held(raw);
    lemma_moved(v[c], g, by, acc, divisor);
}

proof fn lemma_clipped_len(radius: Binary32, m: Seq<Seq<Binary32>>, v: Seq<Binary32>, k: nat)
    ensures
        clipped_sum(radius, m, v, k).len() == v.len(),
    decreases k,
{
    if k > 0 {
        lemma_clipped_len(radius, m, v, (k - 1) as nat);
    }
}

/// A count in double precision is positive, at least one.
proof fn lemma_count_value(n: nat)
    requires
        0 < n <= u64::MAX,
    ensures
        val64(Binary64::whole(n)) >= pow2(1074),
{
    let f = Format::Double;
    lemma_whole_slip(n);
    Binary64::words_are_finite(n);
    lemma_signs();
    Binary64::nothing().zeros();
    lemma_values_ordered(Binary64::whole(n), Binary64::nothing());
    reveal(Binary64::finite);
    lemma_sizes(f);
    lemma_unpack(f, Binary64::whole(n).bits as nat);
}

/// What is held below the largest number was finite.
proof fn lemma_not_held(x: Binary32)
    requires
        size32(x.held()) < ceiling(),
    ensures
        x.finite() || x.nan(),
        x.held() == x,
{
    let f = Format::Single;
    if !x.finite() && !x.nan() {
        assert(size32(Binary32 { bits: 0x7f7f_ffff }) == ceiling() && size32(
            Binary32 { bits: 0xff7f_ffff },
        ) == ceiling()) by {
            lemma_sizes(f);
            lemma_unpack(f, 0x7f7f_ffff);
            lemma_unpack(f, 0xff7f_ffff);
            lemma_top();
        }
    }
}

/// Numbers that are not too large, added up one by one from zero on.
proof fn lemma_sums_up(acc: Seq<Binary64>, t: Seq<Binary64>, k: nat)
    requires
        acc.len() == t.len() + 1,
        k <= t.len() <= 0x10_0000,
        acc[0] == Binary64::nothing(),
        forall|i: int|
            0 <= i < t.len() ==> (#[trigger] t[i]).finite() && far(val64(t[i])) <= pow2(1274),
        forall|i: int| 0 <= i < t.len() ==> #[trigger] acc[i + 1] == acc[i].plus(t[i]),
    ensures
        acc[k as int].finite(),
        weight(vals64(t).take(k as int)) <= k * pow2(1274),
        rough(
            val64(acc[k as int]),
            total(vals64(t).take(k as int)),
            weight(vals64(t).take(k as int)),
            k,
        ),
    decreases k,
{
    let v = vals64(t);
    lemma_signs();
    if k == 0 {
        assert(v.take(0) =~= Seq::empty());
        assert(0 * pow2(1274) == 0);
    } else {
        let h = (k - 1) as nat;
        lemma_sums_up(acc, t, h);
        let x = t[h as int];
        assert(x.finite());
        assert(acc[h as int + 1] == acc[h as int].plus(x));
        assert(v.take(k as int).drop_last() =~= v.take(h as int));
        assert(v.take(k as int).last() == val64(x));
        let (w, b) = (weight(v.take(h as int)), pow2(1274));
        assert((h + 1) * b == h * b + b) by (nonlinear_arith);
        assert(k * b <= pow2(2080)) by {
            lemma2_to64();
            lemma_within(k, b, 20, 1274);
            lemma_pow2_strictly_increases(1294, 2080);
        }
        let f = far(val64(x));
        assert(h * f >= 0) by (nonlinear_arith);
        lemma_rough_plus(acc[h as int], x, total(v.take(h as int)), val64(x), w, f, h);
    }
}

/// The update of a row at coordinate `c`.
pub open spec fn updates_at(m: Seq<Seq<Binary32>>, global: Seq<Binary32>, c: int) -> Seq<Binary64> {
    Seq::new(m.len(), |i: int| differences32(m[i], global)[c].as_binary64())
}

/// The trust each row earns.
pub open spec fn trusts(r: Reference, m: Seq<Seq<Binary32>>) -> Seq<Binary64> {
    Seq::new(
        m.len(),
        |i: int|
            trust_score(differences32(m[i], r.global), differences32(r.trained, r.global)),
    )
}

/// The influence of each row: its trust, times the length of the server's own
/// update over that of the row's.
pub open spec fn influences(r: Reference, m: Seq<Seq<Binary32>>) -> Seq<Binary64> {
    Seq::new(
        m.len(),
        |i: int|
            trusts(r, m)[i].times(
                norm64(differences32(r.trained, r.global)).over(
                    norm64(differences32(m[i], r.global)),
                ),
            ),
    )
}

/// Whether every row earns trust, and neither it nor its influence is beyond
/// 2^200.
pub open spec fn are_trusted(r: Reference, m: Seq<Seq<Binary32>>) -> bool {
    forall|i: int|
        0 <= i < m.len() ==> {
            &&& (#[trigger] trusts(r, m)[i]).finite()
            &&& 0 < trusts(r, m)[i].rank()
            &&& !is_zero64(norm64(differences32(m[i], r.global)))
            &&& far(val64(trusts(r, m)[i])) <= pow2(1274)
            &&& influences(r, m)[i].finite()
            &&& far(val64(influences(r, m)[i])) <= pow2(1274)
        }
}

/// FLTrust moves every coordinate of the global model by the updates, each
/// times its influence, over the trust of all of them, but for roundings.
pub proof fn the_model_moves_by_the_trusted_updates(r: Reference, m: Seq<Seq<Binary32>>, c: int)
    requires
        0 < m.len() <= 0x10_0000,
        are_trusted(r, m),
        0 <= c < r.global.len(),
        r.global[c].finite(),
        forall|i: int|
            0 <= i < m.len() ==> #[trigger] m[i].len() == r.global.len() && differences32(
                m[i],
                r.global,
            )[c].finite(),
        total(vals64(trusts(r, m))) >= pow2(1001),
        trusted_round(r, m)[c].finite(),
        size32(trusted_round(r, m)[c]) < ceiling(),
    ensures
        exists|t: int|
            {
                &&& #[trigger] rough(
                    t,
                    total(vals64(trusts(r, m))),
                    weight(vals64(trusts(r, m))),
                    m.len(),
                )
                &&& is_moved(
                    trusted_round(r, m)[c],
                    r.global[c],
                    influences(r, m),
                    updates_at(m, r.global, c),
                    t,
                )
            },
{
    let server = differences32(r.trained, r.global);
    let n = m.len();
    let (by, g, ts) = (influences(r, m), updates_at(m, r.global, c), trusts(r, m));
    let sums = Seq::new(n + 1, |k: int| trusted_sum(m, r.global, server, k as nat).0);
    let acc = Seq::new(n + 1, |k: int| trusted_sum(m, r.global, server, k as nat).1[c]);
    lemma_signs();
    Binary64::nothing().zeros();
    assert forall|k: int| 0 <= k < n implies #[trigger] sums[k + 1] == sums[k].plus(ts[k])
        && acc[k + 1] == acc[k].plus(by[k].times(g[k])) by {
        assert(ts[k].finite());
        ts[k].finite_is_a_number();
        Binary64::nothing().finite_is_a_number();
        lemma_trusted_len(r, m, k as nat);
        lemma_trusted_len(r, m, (k + 1) as nat);
        assert(m[k].len() == r.global.len());
    }
    assert forall|k: int| 0 <= k < by.len() implies #[trigger] acc[k + 1] == acc[k].plus(
        by[k].times(g[k]),
    ) by {
        assert(sums[k + 1] == sums[k].plus(ts[k]));
    }
    assert forall|i: int| 0 <= i < ts.len() implies (#[trigger] ts[i]).finite() && far(
        val64(ts[i]),
    ) <= pow2(1274) by {}
    assert(acc[0] == Binary64::nothing());
    lemma_sums_up(sums, ts, n);
    assert(vals64(ts).take(n as int) =~= vals64(ts));
    let divisor = sums.last();
    let t = val64(divisor);
    assert forall|i: int| 0 <= i < by.len() implies (#[trigger] by[i]).finite() && g[i].finite()
        && far(pairs64(by, g)[i]) <= pow2(2478) by {
        assert(ts[i].finite());
        assert(m[i].len() == r.global.len());
        let d = differences32(m[i], r.global)[c];
        lemma_wide(d);
        lemma_single_within(d);
        lemma_far_product(val(d), pow2(925) as int);
        lemma_within(far(val(d)), pow2(925), 277, 925);
        lemma_far_product(val64(by[i]), val64(g[i]));
        lemma_within(far(val64(by[i])), far(val64(g[i])), 1274, 1202);
        lemma_pow2_strictly_increases(2476, 2478);
    }
    assert forall|i: int| 0 <= i < pairs64(by, g).len() implies far(#[trigger] pairs64(by, g)[i])
        <= pow2(2478) by {
        assert(by[i].finite());
    }
    lemma_weight_flat(pairs64(by, g), pow2(2478));
    assert(t >= pow2(1000)) by {
        lemma_all_positive(ts);
        lemma_pow2_unfold(1001);
        let w = weight(vals64(ts));
        assert(n * w <= 0x10_0000 * w) by (nonlinear_arith)
            requires
                n <= 0x10_0000,
        ;
    }
    lemma_room(weight(pairs64(by, g)), n, 1274, t);
    lemma_pow2_pos(1000);
    lemma_values_ordered(Binary64::nothing(), divisor);
    divisor.finite_is_a_number();
    lemma_trusted_len(r, m, n);
    let raw = r.global[c].as_binary64().plus(acc.last().over(divisor)).as_binary32();
    assert(trusted_round(r, m)[c] == raw.held());
    lemma_not_held(raw);
    lemma_moved(r.global[c], by, g, acc, divisor);
}

/// Positive numbers come to what they weigh.
proof fn lemma_all_positive(t: Seq<Binary64>)
    requires
        forall|i: int| 0 <= i < t.len() ==> (#[trigger] t[i]).finite() && 0 < t[i].rank(),
    ensures
        total(vals64(t)) == weight(vals64(t)),
    decreases t.len(),
{
    if t.len() > 0 {
        let s = t.drop_last();
        assert forall|i: int| 0 <= i < s.len() implies (#[trigger] s[i]).finite() && 0
            < s[i].rank() by {
            assert(t[i].finite());
        }
        lemma_all_positive(s);
        assert(vals64(t).drop_last() =~= vals64(s));
        let x = t.last();
        assert(t[t.len() - 1].finite());
        lemma_signs();
        Binary64::nothing().zeros();
        x.finite_is_a_number();
        lemma_values_ordered(Binary64::nothing(), x);
    }
}

proof fn lemma_trusted_len(r: Reference, m: Seq<Seq<Binary32>>, k: nat)
    ensures
        trusted_sum(m, r.global, differences32(r.trained, r.global), k).1.len()
            == r.global.len(),
    decreases k,
{
    if k > 0 {
        lemma_trusted_len(r, m, (k - 1) as nat);
    }
}

/// The cosine of two vectors, times their lengths, is their inner product, but
/// for roundings.
pub proof fn cosines_are_products_over_lengths(a: Seq<Binary32>, b: Seq<Binary32>)
    requires
        dot64(a, b).finite(),
        norm64(a).times(norm64(b)).finite(),
        pow2(500) <= val64(norm64(a).times(norm64(b))),
        !is_zero64(norm64(a)),
        !is_zero64(norm64(b)),
        far(val64(dot64(a, b))) <= pow2(1500),
    ensures
        cosine64(a, b).finite(),
        0x20_0000_0000_0000 * far(
            val64(cosine64(a, b)) * val64(norm64(a).times(norm64(b))) - val64(dot64(a, b)) * pow2(
                1074,
            ),
        ) <= far(val64(dot64(a, b))) * pow2(1074) + 0x10_0000_0000_0000 * val64(
            norm64(a).times(norm64(b)),
        ),
{
    let (x, y) = (dot64(a, b), norm64(a).times(norm64(b)));
    lemma_pow2_pos(500);
    lemma_within(far(val64(x)), pow2(1074), 1500, 1074);
    lemma_pow2_adds(2090, 500);
    lemma_pow2_strictly_increases(2574, 2590);
    lemma_mul_inequality(pow2(500) as int, val64(y), pow2(2090) as int);
    lemma_mul_is_commutative(pow2(500) as int, pow2(2090) as int);
    lemma_mul_is_commutative(val64(y), pow2(2090) as int);
    lemma_wide_quotient(x, y);
}

/// An inner product in double precision is the products added up, but for
/// roundings.
pub proof fn inner_products_are_products_added_up(a: Seq<Binary32>, b: Seq<Binary32>)
    requires
        a.len() == b.len() <= 0x10_0000,
        all_finite(a),
        all_finite(b),
    ensures
        dot64(a, b).finite(),
        0x20_0000_0000_0000 * far(
            val64(dot64(a, b)) * pow2(1074) - total(pairs(a, b)) * (pow2(925) * pow2(925)),
        ) <= (4 * a.len()) * (weight(pairs(a, b)) * (pow2(925) * pow2(925))) + (a.len()
            * 0x20_0000_0000_0000) * pow2(1074),
{
    let n = a.len();
    let (x, y) = (
        Seq::new(n, |i: int| a[i].as_binary64()),
        Seq::new(n, |i: int| b[i].as_binary64()),
    );
    let p = products64(a, b);
    let acc = Seq::new(n + 1, |k: int| sum64(p.take(k)));
    let kk = pow2(925) * pow2(925);
    assert(p.take(0) =~= Seq::empty());
    lemma_empty_sum64();
    lemma_signs();
    Binary64::nothing().zeros();
    empty_sum64().finite_is_a_number();
    lemma_values_ordered(empty_sum64(), Binary64::nothing());
    lemma_values_ordered(Binary64::nothing(), empty_sum64());
    assert forall|k: int| 0 <= k < n implies #[trigger] acc[k + 1] == acc[k].plus(
        x[k].times(y[k]),
    ) by {
        assert(p.take(k + 1).drop_last() =~= p.take(k));
    }
    assert forall|i: int| 0 <= i < n implies (#[trigger] x[i]).finite() && y[i].finite()
        && pairs64(x, y)[i] == pairs(a, b)[i] * kk && far(pairs64(x, y)[i]) <= pow2(2478) by {
        assert(a[i].finite() && b[i].finite());
        lemma_wide(a[i]);
        lemma_wide(b[i]);
        lemma_single_within(a[i]);
        lemma_single_within(b[i]);
        let (v, w, k) = (val(a[i]), val(b[i]), pow2(925) as int);
        assert((v * k) * (w * k) == (v * w) * (k * k)) by (nonlinear_arith);
        lemma_far_product(v, k);
        lemma_far_product(w, k);
        lemma_within(far(v), pow2(925), 277, 925);
        lemma_within(far(w), pow2(925), 277, 925);
        lemma_far_product(val64(x[i]), val64(y[i]));
        lemma_within(far(val64(x[i])), far(val64(y[i])), 1202, 1202);
        lemma_pow2_strictly_increases(2404, 2478);
    }
    assert forall|i: int| 0 <= i < pairs64(x, y).len() implies far(#[trigger] pairs64(x, y)[i])
        <= pow2(2478) by {
        assert(x[i].finite());
    }
    lemma_weight_flat(pairs64(x, y), pow2(2478));
    lemma_pow2_pos(1000);
    lemma_room(weight(pairs64(x, y)), n, 1274, pow2(1000) as int);
    lemma_wide_running(acc, x, y, n);
    assert(p.take(n as int) =~= p);
    assert(pairs64(x, y).take(n as int) =~= pairs64(x, y));
    assert(pairs64(x, y) =~= Seq::new(n, |i: int| pairs(a, b)[i] * kk)) by {
        assert forall|i: int| 0 <= i < n implies pairs64(x, y)[i] == pairs(a, b)[i] * kk by {
            assert(x[i].finite());
        }
    }
    lemma_total_scaled(pairs(a, b), kk as int);
    lemma_weight_scaled(pairs(a, b), kk);
}

proof fn lemma_weight_scaled(x: Seq<int>, k: nat)
    ensures
        weight(Seq::new(x.len(), |i: int| x[i] * k)) == weight(x) * k,
    decreases x.len(),
{
    let z = Seq::new(x.len(), |i: int| x[i] * k);
    if x.len() == 0 {
        assert(0 * k == 0);
    } else {
        let y = x.drop_last();
        lemma_weight_scaled(y, k);
        assert(z.drop_last() =~= Seq::new(y.len(), |i: int| y[i] * k));
        lemma_far_product(x.last(), k as int);
        lemma_mul_is_distributive_add_other_way(
            k as int,
            weight(y) as int,
            far(x.last()) as int,
        );
    }
}

/// The forces with which clients move a model under `rule`: the loss of each
/// to the power of `q`, times the estimate that sets the step size.
pub open spec fn forces<P: Fn(Binary64, Binary64) -> Binary64>(
    rule: QFedAvgRule<P>,
    batch: Seq<Delta>,
) -> Seq<Binary64> {
    Seq::new(
        batch.len(),
        |i: int| loss_power(rule, batch[i]).times(rule.lipschitz.as_binary64()),
    )
}

/// The shares of the denominator.
pub open spec fn denominators<P: Fn(Binary64, Binary64) -> Binary64>(
    rule: QFedAvgRule<P>,
    batch: Seq<Delta>,
    m: Seq<Seq<Binary32>>,
    global: Seq<Binary32>,
) -> Seq<Binary64> {
    Seq::new(batch.len(), |i: int| share_of_denominator(rule, batch[i], m[i], global))
}

/// Whether forces and shares are finite and none is beyond 2^200.
pub open spec fn are_moderate_forces(t: Seq<Binary64>) -> bool {
    forall|i: int|
        0 <= i < t.len() ==> (#[trigger] t[i]).finite() && far(val64(t[i])) <= pow2(1274)
}

/// q-FedAvg moves every coordinate of the model by the moves of the clients,
/// each times its force, over the shares of all of them, but for roundings.
pub proof fn the_model_moves_by_the_forces<P: Fn(Binary64, Binary64) -> Binary64>(
    rule: QFedAvgRule<P>,
    batch: Seq<Delta>,
    m: Seq<Seq<Binary32>>,
    global: Seq<Binary32>,
    c: int,
)
    requires
        0 < batch.len() <= 0x10_0000,
        m.len() == batch.len(),
        is_matrix(m, global.len()),
        forall|i: int| 0 <= i < m.len() ==> all_finite(#[trigger] m[i]),
        0 <= c < global.len(),
        global[c].finite(),
        are_moderate_forces(forces(rule, batch)),
        are_moderate_forces(denominators(rule, batch, m, global)),
        val64(fair_sums(rule, batch, m, global, batch.len()).0) >= pow2(1000),
        plus_quotients(
            global,
            fair_sums(rule, batch, m, global, batch.len()).1,
            fair_sums(rule, batch, m, global, batch.len()).0,
        )[c].finite(),
    ensures
        exists|t: int|
            {
                &&& #[trigger] rough(
                    t,
                    total(vals64(denominators(rule, batch, m, global))),
                    weight(vals64(denominators(rule, batch, m, global))),
                    batch.len(),
                )
                &&& is_moved(
                    plus_quotients(
                        global,
                        fair_sums(rule, batch, m, global, batch.len()).1,
                        fair_sums(rule, batch, m, global, batch.len()).0,
                    )[c],
                    global[c],
                    forces(rule, batch),
                    moves(m, global, c),
                    t,
                )
            },
{
    let n = batch.len();
    let (by, g, hs) = (
        forces(rule, batch),
        moves(m, global, c),
        denominators(rule, batch, m, global),
    );
    let sums = Seq::new(n + 1, |k: int| fair_sums(rule, batch, m, global, k as nat).0);
    let acc = Seq::new(n + 1, |k: int| fair_sums(rule, batch, m, global, k as nat).1[c]);
    lemma_signs();
    assert forall|k: int| 0 <= k < n implies #[trigger] sums[k + 1] == sums[k].plus(hs[k])
        && acc[k + 1] == acc[k].plus(by[k].times(g[k])) by {
        assert(hs[k].finite());
        lemma_fair_len(rule, batch, m, global, k as nat);
    }
    assert forall|k: int| 0 <= k < by.len() implies #[trigger] acc[k + 1] == acc[k].plus(
        by[k].times(g[k]),
    ) by {
        assert(sums[k + 1] == sums[k].plus(hs[k]));
    }
    assert(acc[0] == Binary64::nothing());
    lemma_sums_up(sums, hs, n);
    assert(vals64(hs).take(n as int) =~= vals64(hs));
    let divisor = sums.last();
    let t = val64(divisor);
    lemma_bounded_moves(by, m, global, c, 1274);
    assert forall|i: int| 0 <= i < by.len() implies (#[trigger] by[i]).finite() && g[i].finite() by {
        assert(g[i].finite());
    }
    assert(pairs64(by, g) =~= pairs64(g, by)) by {
        assert forall|i: int| 0 <= i < by.len() implies pairs64(by, g)[i] == pairs64(g, by)[i] by {
            lemma_mul_is_commutative(val64(by[i]), val64(g[i]));
        }
    }
    lemma_room(weight(pairs64(by, g)), n, 1274, t);
    lemma_pow2_pos(1000);
    lemma_fair_len(rule, batch, m, global, n);
    lemma_moved(global[c], by, g, acc, divisor);
}

proof fn lemma_fair_len<P: Fn(Binary64, Binary64) -> Binary64>(
    rule: QFedAvgRule<P>,
    batch: Seq<Delta>,
    m: Seq<Seq<Binary32>>,
    global: Seq<Binary32>,
    k: nat,
)
    ensures
        fair_sums(rule, batch, m, global, k).1.len() == global.len(),
    decreases k,
{
    if k > 0 {
        lemma_fair_len(rule, batch, m, global, (k - 1) as nat);
    }
}

/// The squares of the gaps between two vectors, exactly.
pub open spec fn squared_gaps(w: Seq<Binary32>, v: Seq<Binary32>) -> Seq<int> {
    Seq::new(w.len(), |i: int| (val(w[i]) - val(v[i])) * (val(w[i]) - val(v[i])))
}

/// The square of a distance in double precision is the squares of the gaps,
/// added up, but for roundings.
pub proof fn squared_distances_are_squares_added_up(w: Seq<Binary32>, v: Seq<Binary32>)
    requires
        w.len() == v.len() <= 0x8_0000,
        all_finite(w),
        all_finite(v),
    ensures
        distance_squared64(w, v).finite(),
        rough(
            val64(distance_squared64(w, v)),
            total(squared_gaps(w, v)) * pow2(776),
            weight(squared_gaps(w, v)) * pow2(776),
            w.len() + 5,
        ),
        weight(squared_gaps(w, v)) <= w.len() * pow2(556),
    decreases w.len(),
{
    let q = pow2(776);
    let n = w.len();
    let s = squared_differences64(w, v);
    if n == 0 {
        lemma_empty_sum64();
        lemma_signs();
        Binary64::nothing().zeros();
        empty_sum64().finite_is_a_number();
        lemma_values_ordered(empty_sum64(), Binary64::nothing());
        lemma_values_ordered(Binary64::nothing(), empty_sum64());
        assert(0 * q == 0 && 0 * pow2(556) == 0);
    } else {
        let (w0, v0) = (w.drop_last(), v.drop_last());
        assert forall|i: int| 0 <= i < w0.len() implies (#[trigger] w0[i]).finite() by {
            assert(w[i].finite());
        }
        assert forall|i: int| 0 <= i < v0.len() implies (#[trigger] v0[i]).finite() by {
            assert(v[i].finite());
        }
        squared_distances_are_squares_added_up(w0, v0);
        assert(s.drop_last() =~= squared_differences64(w0, v0));
        assert(squared_gaps(w, v).drop_last() =~= squared_gaps(w0, v0));
        let l = n - 1;
        assert(w[l].finite() && v[l].finite());
        lemma_square(w[l], v[l]);
        let d = val(w[l]) - val(v[l]);
        let (e, g) = (total(squared_gaps(w0, v0)), d * d);
        let (a, b, h) = (weight(squared_gaps(w0, v0)), far(d * d), pow2(556));
        let x = sum64(s.drop_last());
        lemma_rough_more(val64(s[l]), g * q, b * q, 5, (n + 4) as nat);
        let m = w0.len();
        assert((m + 1) * h == m * h + h) by (nonlinear_arith);
        assert(a * q + b * q == (a + b) * q) by (nonlinear_arith);
        assert(e * q + g * q == (e + g) * q) by (nonlinear_arith);
        assert((a + b) * q <= pow2(2080)) by {
            lemma2_to64();
            lemma_within(n, h, 20, 556);
            lemma_within(a + b, q, 576, 776);
            lemma_pow2_strictly_increases(1352, 2080);
        }
        lemma_rough_plus(x, s[l], e * q, g * q, a * q, b * q, (n + 4) as nat);
    }
}

/// A client that reports no loss counts with one, and one that reports a
/// negative loss with none.
pub proof fn losses_are_taken_as_reported(loss: Binary32)
    requires
        loss.finite(),
    ensures
        val64(effective_loss(None)) == pow2(1074),
        val64(effective_loss(Some(loss))) == (if val(loss) < 0 {
            0
        } else {
            val(loss) * pow2(925)
        }),
{
    lemma_signs();
    lemma_wide(loss);
    lemma_pow2_pos(925);
    lemma_pow2_pos(1074);
    lemma_values_ordered(loss.as_binary64(), Binary64::nothing());
    lemma_values_ordered(Binary64::unit(), Binary64::nothing());
    let (v, k) = (val(loss), pow2(925) as int);
    assert(v * k < 0 <==> v < 0) by (nonlinear_arith)
        requires
            k > 0,
    ;
}

/// A client's share of the denominator is `q` times the power of its loss less
/// one times the square, and the estimate times the power of its loss, but for
/// roundings.
pub proof fn curvatures_are_sums_of_two_products(
    q: Binary64,
    l: Binary64,
    a: Binary64,
    b: Binary64,
    s: Binary64,
)
    requires
        q.finite() && far(val64(q)) <= pow2(1200),
        l.finite() && far(val64(l)) <= pow2(1200),
        a.finite() && far(val64(a)) <= pow2(1200),
        b.finite() && far(val64(b)) <= pow2(1200),
        s.finite() && far(val64(s)) <= pow2(1200),
    ensures
        curvature(q, l, a, b, s).finite(),
        ({
            let u = pow2(1074);
            let e = (val64(q) * val64(b)) * val64(s);
            let g = (val64(l) * val64(a)) * u;
            0x100_0000_0000 * far(val64(curvature(q, l, a, b, s)) * (u * u) - (e + g)) <= far(e)
                + far(g) + 0x400_0000_0000 * (u * u + far(val64(s)) * u)
        }),
{
    let u = pow2(1074);
    lemma_pow2_pos(1074);
    let (vq, vl, va, vb, vs) = (val64(q), val64(l), val64(a), val64(b), val64(s));
    lemma_bounded_product(q, b, 1200, 1200);
    let x = q.times(b);
    lemma_pow2_strictly_increases(1200, 1328);
    lemma_bounded_product(x, s, 1328, 1200);
    let y = x.times(s);
    lemma_bounded_product(l, a, 1200, 1200);
    let z = l.times(a);
    lemma_pow2_strictly_increases(1328, 1456);
    lemma_pow2_unfold(1457);
    lemma_pow2_strictly_increases(1457, 2090);
    lemma_wide_sum(y, z);
    let c = y.plus(z);
    assert(c == curvature(q, l, a, b, s));
    lemma_far_product(vq, vb);
    lemma_far_product(vl, va);
    lemma_far_product(vq * vb, vs);
    lemma_far_product(vl * va, u as int);
    lemma_curvature(
        val64(c),
        val64(x),
        val64(y),
        val64(z),
        vq * vb,
        vl * va,
        vs,
        u,
    );
}

/// A product within a power of two.
proof fn lemma_bounded_product(x: Binary64, y: Binary64, i: nat, j: nat)
    requires
        x.finite(),
        y.finite(),
        far(val64(x)) <= pow2(i),
        far(val64(y)) <= pow2(j),
        1074 <= i <= 1400,
        1074 <= j <= 1400,
    ensures
        x.times(y).finite(),
        far(val64(x.times(y))) <= pow2((i + j - 1072) as nat),
        0x20_0000_0000_0000 * far(val64(x.times(y)) * pow2(1074) - val64(x) * val64(y)) <= far(
            val64(x) * val64(y),
        ) + 0x10_0000_0000_0000 * pow2(1074),
{
    let u = pow2(1074);
    lemma_pow2_pos(1074);
    lemma_within(far(val64(x)), far(val64(y)), i, j);
    lemma_pow2_adds(2090, 1074);
    lemma_pow2_strictly_increases(i + j, 3164);
    lemma_wide_product(x, y);
    lemma_far_product(val64(x), val64(y));
    let v = val64(x.times(y));
    lemma_far_product(v, u as int);
    let e = (i + j - 1072) as nat;
    lemma_pow2_adds(e, 1074);
    lemma_pow2_unfold(i + j + 1);
    lemma_pow2_unfold(i + j + 2);
    if i + j > 1074 {
        lemma_pow2_strictly_increases(1074, i + j);
    }
    assert(far(v) * u <= 2 * pow2(i + j) + u);
    if far(v) > pow2(e) {
        lemma_mul_strict_inequality(pow2(e) as int, far(v) as int, u as int);
    }
}

/// The roundings of a curvature, put together.
proof fn lemma_curvature(c: int, x: int, y: int, z: int, e: int, g: int, s: int, u: nat)
    requires
        0x20_0000_0000_0000 * far(x * u - e) <= far(e) + 0x10_0000_0000_0000 * u,
        0x20_0000_0000_0000 * far(y * u - x * s) <= far(x * s) + 0x10_0000_0000_0000 * u,
        0x20_0000_0000_0000 * far(z * u - g) <= far(g) + 0x10_0000_0000_0000 * u,
        0x20_0000_0000_0000 * far(c - (y + z)) <= far(y + z),
    ensures
        0x100_0000_0000 * far(c * (u * u) - (e * s + g * u)) <= far(e * s) + far(g * u)
            + 0x400_0000_0000 * (u * u + far(s) * u),
{
    let uu = u * u;
    let (d1, d2, d3, d4) = (x * u - e, y * u - x * s, z * u - g, c - (y + z));
    assert(d4 * uu == c * uu - y * uu - z * uu) by (nonlinear_arith)
        requires
            d4 == c - (y + z),
    ;
    let (yu, xs, zu, xu) = (y * u, x * s, z * u, x * u);
    assert(y * uu == yu * u) by (nonlinear_arith)
        requires
            uu == u * u,
            yu == y * u,
    ;
    assert(z * uu == zu * u) by (nonlinear_arith)
        requires
            uu == u * u,
            zu == z * u,
    ;
    assert(d2 * u == yu * u - xs * u) by (nonlinear_arith)
        requires
            d2 == yu - xs,
    ;
    assert(d1 * s == xu * s - e * s) by (nonlinear_arith)
        requires
            d1 == xu - e,
    ;
    assert(xu * s == xs * u) by (nonlinear_arith)
        requires
            xu == x * u,
            xs == x * s,
    ;
    assert(d3 * u == zu * u - g * u) by (nonlinear_arith)
        requires
            d3 == zu - g,
    ;
    assert(c * uu - (e * s + g * u) == d4 * uu + d2 * u + d1 * s + d3 * u);
    lemma_far_product(d1, s);
    lemma_far_product(d2, u as int);
    lemma_far_product(d3, u as int);
    lemma_far_product(d4, uu as int);
    lemma_far_product(e, s);
    lemma_far_product(g, u as int);
    lemma_far_product(x, s);
    lemma_far_product(x, u as int);
    lemma_far_product(y, u as int);
    lemma_far_product(z, u as int);
    let (fs, fx, fy, fz, fe, fg) = (far(s), far(x), far(y), far(z), far(e), far(g));
    let (f1, f2, f3, f4) = (far(d1), far(d2), far(d3), far(d4));
    let (es, gu, su) = (fe * fs, fg * u, fs * u);
    let (a1, a2, a3, a4) = (f1 * fs, f2 * u, f3 * u, f4 * uu);
    // sizes in the smallest unit
    let xsu = (fx * fs) * u;
    assert(xsu == (fx * u) * fs) by (nonlinear_arith)
        requires
            xsu == (fx * fs) * u,
    ;
    assert((fx * u) * fs <= (fe + f1) * fs) by (nonlinear_arith)
        requires
            fx * u <= fe + f1,
    ;
    assert((fe + f1) * fs == es + a1) by (nonlinear_arith)
        requires
            es == fe * fs,
            a1 == f1 * fs,
    ;
    assert(0x20_0000_0000_0000 * a1 <= es + 0x10_0000_0000_0000 * su) by (nonlinear_arith)
        requires
            0x20_0000_0000_0000 * f1 <= fe + 0x10_0000_0000_0000 * u,
            a1 == f1 * fs,
            es == fe * fs,
            su == fs * u,
    ;
    assert(0x20_0000_0000_0000 * a2 <= xsu + 0x10_0000_0000_0000 * uu) by (nonlinear_arith)
        requires
            0x20_0000_0000_0000 * f2 <= fx * fs + 0x10_0000_0000_0000 * u,
            a2 == f2 * u,
            xsu == (fx * fs) * u,
            uu == u * u,
    ;
    assert(0x20_0000_0000_0000 * a3 <= gu + 0x10_0000_0000_0000 * uu) by (nonlinear_arith)
        requires
            0x20_0000_0000_0000 * f3 <= fg + 0x10_0000_0000_0000 * u,
            a3 == f3 * u,
            gu == fg * u,
            uu == u * u,
    ;
    let (yuu, zuu) = (fy * uu, fz * uu);
    assert(yuu <= xsu + a2) by (nonlinear_arith)
        requires
            fy * u <= fx * fs + f2,
            yuu == fy * uu,
            uu == u * u,
            xsu == (fx * fs) * u,
            a2 == f2 * u,
    ;
    assert(zuu <= gu + a3) by (nonlinear_arith)
        requires
            fz * u <= fg + f3,
            zuu == fz * uu,
            uu == u * u,
            gu == fg * u,
            a3 == f3 * u,
    ;
    assert(0x20_0000_0000_0000 * a4 <= yuu + zuu) by (nonlinear_arith)
        requires
            0x20_0000_0000_0000 * f4 <= fy + fz,
            a4 == f4 * uu,
            yuu == fy * uu,
            zuu == fz * uu,
    ;
    let all = far(c * uu - (e * s + g * u));
    assert(all <= a1 + a2 + a3 + a4);
    lemma_curvature_sizes(all, a1, a2, a3, a4, xsu, yuu, zuu, es, gu, uu, su);
}

proof fn lemma_curvature_sizes(
    all: nat,
    a1: nat,
    a2: nat,
    a3: nat,
    a4: nat,
    x: nat,
    y: nat,
    z: nat,
    e: nat,
    g: nat,
    uu: nat,
    su: nat,
)
    requires
        all <= a1 + a2 + a3 + a4,
        x <= e + a1,
        y <= x + a2,
        z <= g + a3,
        0x20_0000_0000_0000 * a1 <= e + 0x10_0000_0000_0000 * su,
        0x20_0000_0000_0000 * a2 <= x + 0x10_0000_0000_0000 * uu,
        0x20_0000_0000_0000 * a3 <= g + 0x10_0000_0000_0000 * uu,
        0x20_0000_0000_0000 * a4 <= y + z,
    ensures
        0x100_0000_0000 * all <= e + g + 0x400_0000_0000 * (uu + su),
{
    assert(x <= 2 * e + su);
    assert(y <= 4 * e + 2 * su + uu);
    assert(z <= 2 * g + uu);
    assert(0x20_0000_0000_0000 * (a1 + a2 + a3 + a4) <= 8 * e + 8 * g + 0x20_0000_0000_0000 * su
        + 0x40_0000_0000_0000 * uu);
}

/// An update is what a client's weights have that the global model has not,
/// but for one rounding.
pub proof fn updates_are_gaps(w: Seq<Binary32>, global: Seq<Binary32>, c: int)
    requires
        0 <= c < w.len(),
        w[c].finite(),
        global[c].finite(),
        far(val(w[c]) - val(global[c])) <= ceiling(),
    ensures
        differences32(w, global).len() == w.len(),
        differences32(w, global)[c].finite(),
        0x100_0000 * far(
            val(differences32(w, global)[c]) - (val(w[c]) - val(global[c])),
        ) <= far(val(w[c]) - val(global[c])),
{
    lemma_minus_drift(w[c], global[c]);
}

/// The squares of the gaps of the first `k` coordinates, each times `l`,
/// exactly.
pub open spec fn scaled_gaps(l: int, w: Seq<Binary32>, global: Seq<Binary32>, k: nat) -> int
    decreases k,
{
    if k == 0 {
        0
    } else {
        let d = l * (val(w[k - 1]) - val(global[k - 1]));
        scaled_gaps(l, w, global, (k - 1) as nat) + d * d
    }
}

/// The square that enters a client's share of the denominator is the squares
/// of its moves, each times the estimate, added up, but for roundings.
pub proof fn scaled_squares_are_squares_added_up(
    l: Binary32,
    w: Seq<Binary32>,
    global: Seq<Binary32>,
    k: nat,
)
    requires
        l.finite(),
        k <= w.len(),
        k <= global.len(),
        k <= 0x8_0000,
        all_finite(w),
        all_finite(global),
    ensures
        scaled_square(l.as_binary64(), w, global, k).finite(),
        0 <= scaled_gaps(val(l), w, global, k) <= k * pow2(1110),
        rough(
            val64(scaled_square(l.as_binary64(), w, global, k)),
            scaled_gaps(val(l), w, global, k) * pow2(478),
            (scaled_gaps(val(l), w, global, k) * pow2(478)) as nat,
            k + 12,
        ),
    decreases k,
{
    let r = pow2(478);
    lemma_pow2_pos(478);
    lemma_signs();
    if k == 0 {
        assert(0 * r == 0 && 0 * pow2(1110) == 0);
    } else {
        let h = (k - 1) as nat;
        scaled_squares_are_squares_added_up(l, w, global, h);
        let (x, y) = (w[h as int], global[h as int]);
        assert(x.finite() && y.finite());
        let before = scaled_square(l.as_binary64(), w, global, h);
        let step = l.as_binary64().times(x.as_binary64().minus(y.as_binary64()));
        let d = val(l) * (val(x) - val(y));
        let (e, g, b) = (scaled_gaps(val(l), w, global, h), d * d, pow2(1110));
        lemma_scaled_step(l, x, y);
        let sq = step.times(step);
        assert((h + 1) * b == h * b + b) by (nonlinear_arith);
        assert(e * r >= 0 && g * r >= 0) by (nonlinear_arith)
            requires
                e >= 0,
                g >= 0,
                r >= 0,
        ;
        lemma_rough_more(val64(sq), g * r, (g * r) as nat, 11, (k + 11) as nat);
        assert((e + g) * r == e * r + g * r) by (nonlinear_arith);
        assert((e + g) * r <= pow2(2080)) by {
            lemma2_to64();
            lemma_within(k, b, 20, 1110);
            lemma_within((e + g) as nat, r, 1130, 478);
            lemma_pow2_strictly_increases(1608, 2080);
        }
        lemma_rough_plus(
            before,
            sq,
            e * r,
            g * r,
            (e * r) as nat,
            (g * r) as nat,
            (k + 11) as nat,
        );
    }
}

/// One of these squares.
proof fn lemma_scaled_step(l: Binary32, x: Binary32, y: Binary32)
    requires
        l.finite(),
        x.finite(),
        y.finite(),
    ensures
        ({
            let step = l.as_binary64().times(x.as_binary64().minus(y.as_binary64()));
            let d = val(l) * (val(x) - val(y));
            &&& step.times(step).finite()
            &&& 0 <= d * d <= pow2(1110)
            &&& rough(
                val64(step.times(step)),
                (d * d) * pow2(478),
                ((d * d) * pow2(478)) as nat,
                11,
            )
        }),
{
    let (q, r, t) = (pow2(776), pow2(478), pow2(1074));
    let gap = x.as_binary64().minus(y.as_binary64());
    let step = l.as_binary64().times(gap);
    let (v, g) = (val(l), val(x) - val(y));
    let d = v * g;
    lemma_wide(l);
    lemma_single_within(l);
    lemma_inputs(l, x, y);
    lemma_within(far(v), far(g), 277, 278);
    lemma_pow2_strictly_increases(555, 600);
    lemma_first_product(l.as_binary64(), gap, v, g, 0, 1);
    lemma_far_product(v, g);
    lemma_far_product(d, d);
    let f = far(d);
    lemma_within(f, f, 555, 555);
    assert(d * d >= 0) by (nonlinear_arith);
    lemma_pow2_adds(776, 776);
    lemma_pow2_adds(478, 1074);
    assert(((d * d) * r) * t == (d * q) * (d * q)) by (nonlinear_arith)
        requires
            q * q == r * t,
    ;
    assert(((f * f) * r) * t == (f * q) * (f * q)) by (nonlinear_arith)
        requires
            q * q == r * t,
    ;
    lemma_pow2_strictly_increases(49, 478);
    lemma_large_or_none(f * f, r);
    lemma_within(f * f, r, 1110, 478);
    lemma_pow2_strictly_increases(1588, 2080);
    lemma_rough_times(
        step,
        step,
        d * q,
        d * q,
        f * q,
        f * q,
        3,
        3,
        (d * d) * r,
        (f * f) * r,
    );
}

} // verus!
