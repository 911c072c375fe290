//! FLTrust makes finite numbers of finite updates and a finite reference.
//!
//! In double precision its sums stay finite: an update whose difference from
//! the global model overflows earns no trust, and any other is scaled to the
//! length of the server's own before it is added.
use vstd::prelude::*;
use vstd::arithmetic::power2::*;
use crate::delta::Delta;
use crate::float::binary32::Binary32;
use crate::float::binary64::Binary64;
use crate::float::scale::{at_least, lemma_exponent, lemma_positive_at_least, lemma_product_at_least, lemma_product_up_to, lemma_quotient_up_to, lemma_root_at_least, lemma_root_up_to, lemma_single_up_to, lemma_sizes_ordered, lemma_sum_up_to, lemma_up_to_more, lemma_zero_up_to, size, up_to};
use crate::linear::{differences32, dot64, empty_sum64, products64, sum64};
use crate::trusted::fltrust::{cosine64, fltrust_outcome, is_zero64, norm64, trust_score, trusted_round, trusted_sum, Reference};
use crate::weights::{accepted_batches_are_fit, all_finite, is_matrix, validated};

verus! {

/// Whether no coordinate is a NaN.
pub open spec fn all_numbers(w: Seq<Binary32>) -> bool {
    forall|j: int| 0 <= j < w.len() ==> !(#[trigger] w[j]).nan()
}

pub open spec fn is_length64(x: Binary64) -> bool {
    !x.nan() && 0 <= x.rank()
}

pub proof fn lemma_empty_sum64()
    ensures
        empty_sum64().finite(),
        empty_sum64().rank() == 0,
        !empty_sum64().nan(),
        Binary64::nothing().finite(),
        Binary64::nothing().rank() == 0,
        !Binary64::nothing().nan(),
{
    assert(Binary64::nothing().negated() == empty_sum64()) by {
        reveal(Binary64::negated);
    }
    empty_sum64().zeros();
    Binary64::nothing().zeros();
    empty_sum64().finite_is_a_number();
    Binary64::nothing().finite_is_a_number();
}

/// Lengths add up to a length, which is infinite where one of them is.
pub proof fn lemma_lengths(s: Seq<Binary64>)
    requires
        forall|i: int| 0 <= i < s.len() ==> is_length64(#[trigger] s[i]),
    ensures
        is_length64(sum64(s)),
        forall|i: int| 0 <= i < s.len() && !(#[trigger] s[i]).finite() ==> !sum64(s).finite(),
    decreases s.len(),
{
    if s.len() == 0 {
        lemma_empty_sum64();
    } else {
        let rest = s.drop_last();
        assert forall|i: int| 0 <= i < rest.len() implies is_length64(#[trigger] rest[i]) by {
            assert(is_length64(s[i]));
        }
        lemma_lengths(rest);
        assert(is_length64(s[s.len() - 1]));
        sum64(rest).lengths_add_up(s.last());
        assert forall|i: int| 0 <= i < s.len() && !(#[trigger] s[i]).finite() implies !sum64(
            s,
        ).finite() by {
            if i == s.len() - 1 {
                s.last().overflow_stays(sum64(rest));
            } else {
                assert(!rest[i].finite());
                sum64(rest).overflow_stays(s.last());
            }
        }
    }
}

/// The length of a vector of numbers is one, and infinite where one of them
/// is.
pub proof fn lemma_norm_is_length(a: Seq<Binary32>)
    requires
        all_numbers(a),
    ensures
        is_length64(dot64(a, a)),
        is_length64(norm64(a)),
        !all_finite(a) ==> !norm64(a).finite(),
        norm64(a).rank() > 0 ==> dot64(a, a).rank() > 0,
{
    let s = products64(a, a);
    assert forall|i: int| 0 <= i < s.len() implies is_length64(#[trigger] s[i]) && (
    !a[i].finite() ==> !s[i].finite()) by {
        assert(!a[i].nan());
        a[i].widening_keeps_numbers();
        a[i].as_binary64().square_is_not_negative();
    }
    lemma_lengths(s);
    dot64(a, a).root_of_a_length();
    if !all_finite(a) {
        let i = choose|i: int| 0 <= i < a.len() && !(#[trigger] a[i]).finite();
        assert(!s[i].finite());
    }
}

/// Where a difference overflowed no trust is earned.
pub proof fn lemma_overflow_earns_nothing(g: Seq<Binary32>, server: Seq<Binary32>)
    requires
        all_numbers(g),
        all_numbers(server),
        !all_finite(g) || !all_finite(server),
    ensures
        trust_score(g, server).at_most(Binary64::nothing()),
{
    lemma_norm_is_length(g);
    lemma_norm_is_length(server);
    lemma_empty_sum64();
    if !is_zero64(norm64(g)) && !is_zero64(norm64(server)) {
        norm64(g).infinite_products(norm64(server));
        dot64(g, server).over_an_infinity(norm64(g).times(norm64(server)));
    }
}

/// Bounded terms add up to a bounded sum.
pub proof fn lemma_bounded_sum(s: Seq<Binary64>, e: nat)
    requires
        e + 54 <= 2097,
        forall|i: int| 0 <= i < s.len() ==> up_to(#[trigger] s[i], e),
    ensures
        up_to(sum64(s), e + 54),
    decreases s.len(),
{
    if s.len() == 0 {
        lemma_empty_sum64();
        lemma_zero_up_to(empty_sum64(), e + 54);
    } else {
        let rest = s.drop_last();
        assert forall|i: int| 0 <= i < rest.len() implies up_to(#[trigger] rest[i], e) by {
            assert(up_to(s[i], e));
        }
        lemma_bounded_sum(rest, e);
        assert(up_to(s[s.len() - 1], e));
        lemma_sum_up_to(sum64(rest), s.last(), e);
    }
}

/// A finite sum of lengths is at least each of them.
pub proof fn lemma_part_of_sum64(s: Seq<Binary64>, i: int)
    requires
        0 <= i < s.len(),
        forall|k: int| 0 <= k < s.len() ==> is_length64(#[trigger] s[k]),
        sum64(s).finite(),
    ensures
        s[i].rank() <= sum64(s).rank(),
    decreases s.len(),
{
    let rest = s.drop_last();
    assert forall|k: int| 0 <= k < rest.len() implies is_length64(#[trigger] rest[k]) by {
        assert(is_length64(s[k]));
    }
    lemma_lengths(rest);
    assert(is_length64(s[s.len() - 1]));
    let (a, b) = (sum64(rest), s.last());
    if !a.finite() {
        a.overflow_stays(b);
    }
    if !b.finite() {
        b.overflow_stays(a);
    }
    a.plus_grows(b);
    b.plus_grows(a);
    a.plus_commutes(b);
    if i < s.len() - 1 {
        lemma_part_of_sum64(rest, i);
    }
}

/// The length of a finite vector other than zero: at least 2^-537, below
/// 2^156, and no coordinate is much larger than it.
pub proof fn lemma_norm_exponent(a: Seq<Binary32>) -> (e: nat)
    requires
        all_finite(a),
        norm64(a).rank() > 0,
    ensures
        537 <= e <= 1229,
        at_least(norm64(a), e),
        up_to(norm64(a), e + 1),
        forall|i: int| 0 <= i < a.len() ==> up_to((#[trigger] a[i]).as_binary64(), e + 1),
{
    assert forall|i: int| 0 <= i < a.len() implies !(#[trigger] a[i]).nan() by {
        assert(a[i].finite());
        a[i].finite_is_a_number();
    }
    lemma_norm_is_length(a);
    let s = products64(a, a);
    let (d, n) = (dot64(a, a), norm64(a));
    assert forall|i: int| 0 <= i < s.len() implies up_to(#[trigger] s[i], 1330) && is_length64(
        s[i],
    ) by {
        assert(a[i].finite());
        let x = a[i].as_binary64();
        lemma_single_up_to(a[i]);
        lemma_product_up_to(x, x, 1202, 1202);
        x.finite_is_a_number();
        x.square_is_not_negative();
    }
    lemma_bounded_sum(s, 1330);
    lemma_root_up_to(d, 692);
    lemma_positive_at_least(d);
    lemma_root_at_least(d, 0);
    let e = lemma_exponent(n);
    if e > 1229 {
        lemma_pow2_strictly_increases(1229, e);
    }
    if e < 537 {
        if e + 1 < 537 {
            lemma_pow2_strictly_increases(e + 1, 537);
        }
    }
    assert forall|i: int| 0 <= i < a.len() implies up_to(
        (#[trigger] a[i]).as_binary64(),
        e + 1,
    ) by {
        let x = a[i].as_binary64();
        assert(a[i].finite());
        lemma_single_up_to(a[i]);
        assert(up_to(s[i], 1330));
        if size(x) > pow2(e + 1) {
            lemma_product_at_least(x, x, e + 1, e + 1);
            lemma_part_of_sum64(s, i);
            lemma_sizes_ordered(s[i], d);
            let k = (e + 1 - 537) as nat;
            lemma_root_at_least(d, k);
        }
    }
    e
}

/// What an update that earns trust contributes is bounded, whatever the
/// update.
pub proof fn lemma_contribution(g: Seq<Binary32>, server: Seq<Binary32>)
    requires
        g.len() == server.len(),
        all_numbers(g),
        all_numbers(server),
        !trust_score(g, server).at_most(Binary64::nothing()),
        !is_zero64(norm64(g)),
    ensures
        up_to(trust_score(g, server), 1130),
        trust_score(g, server).rank() > 0,
        forall|i: int|
            0 <= i < g.len() ==> up_to(
                trust_score(g, server).times(norm64(server).over(norm64(g))).times(
                    (#[trigger] g[i]).as_binary64(),
                ),
                1287,
            ),
{
    lemma_empty_sum64();
    if !all_finite(g) || !all_finite(server) {
        lemma_overflow_earns_nothing(g, server);
    }
    lemma_norm_is_length(g);
    lemma_norm_is_length(server);
    let (ng, ns) = (norm64(g), norm64(server));
    let a = lemma_norm_exponent(g);
    let b = lemma_norm_exponent(server);
    let s = products64(g, server);
    let c = (a + b + 2 - 1074) as nat;
    assert forall|i: int| 0 <= i < s.len() implies up_to(#[trigger] s[i], c) by {
        assert(up_to(g[i].as_binary64(), a + 1));
        assert(up_to(server[i].as_binary64(), b + 1));
        lemma_product_up_to(g[i].as_binary64(), server[i].as_binary64(), a + 1, b + 1);
    }
    lemma_bounded_sum(s, c);
    lemma_product_up_to(ng, ns, a + 1, b + 1);
    lemma_product_at_least(ng, ns, a, b);
    let cosine = cosine64(g, server);
    lemma_quotient_up_to(dot64(g, server), ng.times(ns), c + 54, (a + b - 1074) as nat);
    cosine.finite_is_a_number();
    let trust = trust_score(g, server);
    lemma_zero_up_to(Binary64::nothing(), 1130);
    let scale = ns.over(ng);
    lemma_quotient_up_to(ns, ng, b + 1, a);
    let p = (b + 1 + 1074 - a) as nat;
    lemma_product_up_to(trust, scale, 1130, p);
    let q = (1130 + p - 1074) as nat;
    assert forall|i: int| 0 <= i < g.len() implies up_to(
        trust.times(scale).times((#[trigger] g[i]).as_binary64()),
        1287,
    ) by {
        let x = g[i].as_binary64();
        assert(up_to(x, a + 1));
        lemma_product_up_to(trust.times(scale), x, q, a + 1);
        lemma_up_to_more(trust.times(scale).times(x), (q + a + 1 - 1074) as nat, 1287);
    }
}

/// The difference of finite vectors holds numbers.
pub proof fn lemma_differences(w: Seq<Binary32>, v: Seq<Binary32>)
    requires
        w.len() == v.len(),
        all_finite(w),
        all_finite(v),
    ensures
        all_numbers(differences32(w, v)),
{
    let r = differences32(w, v);
    assert forall|i: int| 0 <= i < r.len() implies !(#[trigger] r[i]).nan() by {
        assert(w[i].finite() && v[i].finite());
        v[i].finite_is_a_number();
        w[i].less_a_number(v[i]);
    }
}

/// The running sums of FLTrust stay bounded.
pub proof fn lemma_trusted_sum(
    m: Seq<Seq<Binary32>>,
    global: Seq<Binary32>,
    server: Seq<Binary32>,
    k: nat,
)
    requires
        k <= m.len(),
        is_matrix(m, global.len()),
        server.len() == global.len(),
        all_finite(global),
        all_numbers(server),
        forall|i: int| 0 <= i < m.len() ==> all_finite(#[trigger] m[i]),
    ensures
        up_to(trusted_sum(m, global, server, k).0, 1184),
        trusted_sum(m, global, server, k).1.len() == global.len(),
        forall|i: int|
            0 <= i < global.len() ==> up_to(
                #[trigger] trusted_sum(m, global, server, k).1[i],
                1341,
            ),
    decreases k,
{
    lemma_empty_sum64();
    if k == 0 {
        lemma_zero_up_to(Binary64::nothing(), 1184);
        lemma_zero_up_to(Binary64::nothing(), 1341);
    } else {
        let h = (k - 1) as nat;
        lemma_trusted_sum(m, global, server, h);
        assert(all_finite(m[h as int]));
        assert(m[h as int].len() == global.len());
        let g = differences32(m[h as int], global);
        lemma_differences(m[h as int], global);
        let trust = trust_score(g, server);
        if !trust.at_most(Binary64::nothing()) && !is_zero64(norm64(g)) {
            lemma_contribution(g, server);
            let (total, acc) = trusted_sum(m, global, server, h);
            lemma_sum_up_to(total, trust, 1130);
            let by = trust.times(norm64(server).over(norm64(g)));
            let next = trusted_sum(m, global, server, k).1;
            assert forall|i: int| 0 <= i < global.len() implies up_to(#[trigger] next[i], 1341) by {
                assert(up_to(acc[i], 1341));
                let x = g[i];
                assert(up_to(by.times(x.as_binary64()), 1287));
                lemma_sum_up_to(acc[i], by.times(x.as_binary64()), 1287);
            }
        }
    }
}

/// FLTrust gives finite weights wherever its reference is finite.
pub proof fn trusted_averages_are_finite(reference: Reference, batch: Seq<Delta>)
    requires
        all_finite(reference.global),
        all_finite(reference.trained),
        fltrust_outcome(Some(reference), batch) is Ok,
    ensures
        all_finite(fltrust_outcome(Some(reference), batch)->Ok_0),
{
    reveal(fltrust_outcome);
    accepted_batches_are_fit(batch);
    let m = validated(batch)->Ok_0;
    let (global, server) = (
        reference.global,
        differences32(reference.trained, reference.global),
    );
    lemma_differences(reference.trained, global);
    lemma_trusted_sum(m, global, server, m.len());
    lemma_empty_sum64();
    let (total, acc) = trusted_sum(m, global, server, m.len());
    total.finite_is_a_number();
    let r = trusted_round(reference, m);
    assert forall|i: int| 0 <= i < r.len() implies (#[trigger] r[i]).finite() by {
        assert(global[i].finite());
        if !total.at_most(Binary64::nothing()) {
            assert(up_to(acc[i], 1341));
            acc[i].finite_is_a_number();
            acc[i].over_a_positive(total);
            global[i].widening_is_exact();
            let (x, y) = (global[i].as_binary64(), acc[i].over(total));
            y.running_sums_are_numbers(x);
            y.plus_commutes(x);
            x.plus(y).narrowing_keeps_the_order(x.plus(y));
            x.plus(y).as_binary32().held_is_finite();
        }
    }
}

} // verus!
