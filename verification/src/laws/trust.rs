//! What the methods that score updates promise.
use vstd::prelude::*;
use crate::aggregator::Aggregator;
use crate::averaging::is_zero;
use crate::delta::Delta;
use crate::error::Rejection;
use crate::flanders::filter::{kept_count, survivors, FlandersTuning};
use crate::float::binary32::Binary32;
use crate::float::binary64::Binary64;
use crate::history::History;
use crate::laws::selection::lemma_kept_count;
use crate::linear::differences32;
use crate::order::{stable_order, stable_order_is_a_sorted_permutation};
use crate::robust::filter::indices_below;
use crate::temporal::foolsgold::{cosine32, distinctness, foolsgold_weights_of, held_in_unit, largest, most_alike, pardoned, relative_distinctness, resemblance};
use crate::elementary::image;
use crate::trusted::fltrust::{cosine64, fltrust_outcome, is_zero64, norm64, trust_score, trusted_round, trusted_sum, Reference};
use crate::trusted::zeno::{Scores, ZenoAggregator};
use crate::weights::{accepted_batches_are_fit, all_finite, validated};

verus! {

/// Without a reference FLTrust refuses every fit batch, rather than average
/// it.
pub proof fn trust_needs_a_reference(batch: Seq<Delta>)
    requires
        batch.len() > 0,
        validated(batch) is Ok,
    ensures
        fltrust_outcome(None, batch) == Err::<Seq<Binary32>, Rejection>(
            Rejection::MissingTrustedReference,
        ),
{
    reveal(fltrust_outcome);
}

/// Whether an update earns no trust: it does not point the way of the
/// server's own, or it does not move at all.
pub open spec fn is_distrusted(r: Reference, w: Seq<Binary32>) -> bool {
    let g = differences32(w, r.global);
    let server = differences32(r.trained, r.global);
    trust_score(g, server).at_most(Binary64::nothing()) || is_zero64(norm64(g))
}

/// An update that points away from the server's own earns no trust.
pub proof fn opposing_the_reference_earns_no_trust(r: Reference, w: Seq<Binary32>)
    requires
        cosine64(differences32(w, r.global), differences32(r.trained, r.global)).at_most(
            Binary64::nothing(),
        ),
    ensures
        is_distrusted(r, w),
{
    Binary64::nothing().zeros();
    reveal(Binary64::finite);
    reveal(Binary64::nan);
}

proof fn lemma_distrusted_removed(
    r: Reference,
    m: Seq<Seq<Binary32>>,
    i: int,
    k: nat,
)
    requires
        0 <= i < m.len(),
        i < k <= m.len(),
        is_distrusted(r, m[i]),
    ensures
        trusted_sum(m, r.global, differences32(r.trained, r.global), k) == trusted_sum(
            m.remove(i),
            r.global,
            differences32(r.trained, r.global),
            (k - 1) as nat,
        ),
    decreases k,
{
    let server = differences32(r.trained, r.global);
    let h = (k - 1) as nat;
    if h == i {
        lemma_same_head(r, m, m.remove(i), h);
    } else {
        lemma_distrusted_removed(r, m, i, h);
        assert(m.remove(i)[h - 1] == m[h as int]);
    }
}

proof fn lemma_same_head(r: Reference, a: Seq<Seq<Binary32>>, b: Seq<Seq<Binary32>>, k: nat)
    requires
        k <= a.len(),
        k <= b.len(),
        forall|j: int| 0 <= j < k ==> #[trigger] a[j] == b[j],
    ensures
        trusted_sum(a, r.global, differences32(r.trained, r.global), k) == trusted_sum(
            b,
            r.global,
            differences32(r.trained, r.global),
            k,
        ),
    decreases k,
{
    if k > 0 {
        lemma_same_head(r, a, b, (k - 1) as nat);
        assert(a[k - 1] == b[k - 1]);
    }
}

/// An update that earns no trust contributes nothing: the result is the same
/// without it.
pub proof fn distrusted_updates_contribute_nothing(
    r: Reference,
    m: Seq<Seq<Binary32>>,
    i: int,
)
    requires
        0 <= i < m.len(),
        is_distrusted(r, m[i]),
    ensures
        trusted_round(r, m) == trusted_round(r, m.remove(i)),
{
    lemma_distrusted_removed(r, m, i, m.len());
}

/// Where nobody earns trust the global model stays as it is.
pub proof fn without_trust_nothing_moves(r: Reference, m: Seq<Seq<Binary32>>)
    requires
        forall|i: int| 0 <= i < m.len() ==> is_distrusted(r, #[trigger] m[i]),
    ensures
        trusted_round(r, m) == r.global,
    decreases m.len(),
{
    if m.len() > 0 {
        let rest = m.drop_last();
        assert(m.remove(m.len() - 1) =~= rest);
        assert(is_distrusted(r, m[m.len() - 1]));
        distrusted_updates_contribute_nothing(r, m, m.len() - 1);
        assert forall|i: int| 0 <= i < rest.len() implies is_distrusted(r, #[trigger] rest[i]) by {
            assert(is_distrusted(r, m[i]));
        }
        without_trust_nothing_moves(r, rest);
    } else {
        Binary64::nothing().zeros();
        reveal(Binary64::finite);
        reveal(Binary64::nan);
    }
}

/// Scores serve one fit batch: whatever came of it, the next one is refused
/// until there are new ones.
pub proof fn scores_are_used_once(
    s: (Binary32, Binary32, Option<Scores>),
    first: Seq<Delta>,
    second: Seq<Delta>,
)
    requires
        first.len() > 0,
        validated(first) is Ok,
        second.len() > 0,
        validated(second) is Ok,
    ensures
        ZenoAggregator::step(ZenoAggregator::step(s, first).1, second).0 == Err::<
            Seq<Binary32>,
            Rejection,
        >(Rejection::MissingCandidateScores),
{
}

/// FLANDERS keeps at least one client, and everyone before there is a signal
/// to judge by.
pub proof fn flanders_keeps_somebody(
    t: FlandersTuning,
    history: Seq<History>,
    global: Option<Seq<Binary32>>,
    batch: Seq<Delta>,
)
    requires
        0 < batch.len() <= usize::MAX,
        validated(batch) is Ok,
    ensures
        survivors(t, history, global, batch, validated(batch)->Ok_0).len() > 0,
        crate::flanders::filter::forecast_of(
            t,
            history,
            crate::flanders::filter::known_ids(batch, history, batch.len()),
            validated(batch)->Ok_0[0].len(),
        ) is None && global is None ==> survivors(
            t,
            history,
            global,
            batch,
            validated(batch)->Ok_0,
        ).len() == batch.len(),
{
    accepted_batches_are_fit(batch);
    let m = validated(batch)->Ok_0;
    let ranks = crate::flanders::filter::ranks64(
        crate::flanders::filter::scores_of(t, history, global, batch, m),
    );
    let order = stable_order(ranks);
    stable_order_is_a_sorted_permutation(ranks);
    let signal = crate::flanders::filter::forecast_of(
        t,
        history,
        crate::flanders::filter::known_ids(batch, history, batch.len()),
        m[0].len(),
    ) is Some || global is Some;
    let count = kept_count(t.byzantine_fraction, batch.len(), signal);
    let best = order.take(count as int);
    assert(best.no_duplicates());
    assert(indices_below(best, batch.len())) by {
        assert forall|k: int| 0 <= k < best.len() implies #[trigger] best[k] < batch.len() by {
            assert(order[k] < batch.len());
        }
    }
    lemma_kept_count(batch.len(), best);
}

/// Whether `ln` gives a number for every number that is not below zero.
pub open spec fn is_logarithm_like<L: Fn(Binary32) -> Binary32>(ln: L) -> bool {
    forall|x: Binary32| !x.nan() && 0 <= x.rank() ==> !(#[trigger] image(ln, x)).nan()
}

proof fn lemma_held_in_unit(x: Binary32)
    requires
        !x.nan(),
    ensures
        held_in_unit(x).finite(),
        0 <= held_in_unit(x).rank() <= Binary32::unit().rank(),
{
    Binary32::nothing().zeros();
    Binary32::unit().unsigned_patterns();
    Binary32::nothing().unsigned_patterns();
    x.between_finite_numbers(Binary32::nothing(), Binary32::unit());
}

/// The largest of a list that starts from zero is a number, not below zero,
/// and not below any number of the list.
proof fn lemma_largest(s: Seq<Binary32>)
    ensures
        !largest(s).nan(),
        0 <= largest(s).rank(),
        forall|i: int|
            0 <= i < s.len() && !(#[trigger] s[i]).nan() ==> s[i].rank() <= largest(s).rank(),
    decreases s.len(),
{
    if s.len() == 0 {
        Binary32::nothing().unsigned_patterns();
    } else {
        lemma_largest(s.drop_last());
        assert forall|i: int| 0 <= i < s.len() && !(#[trigger] s[i]).nan() implies s[i].rank()
            <= largest(s).rank() by {
            if i < s.len() - 1 {
                assert(s.drop_last()[i] == s[i]);
            }
        }
    }
}

/// The largest of numbers between zero and one is one of them.
proof fn lemma_largest_in_unit(s: Seq<Binary32>)
    requires
        forall|i: int|
            0 <= i < s.len() ==> (#[trigger] s[i]).finite() && s[i].rank()
                <= Binary32::unit().rank(),
    ensures
        largest(s).finite(),
        largest(s).rank() <= Binary32::unit().rank(),
    decreases s.len(),
{
    Binary32::nothing().unsigned_patterns();
    Binary32::unit().unsigned_patterns();
    if s.len() > 0 {
        let rest = s.drop_last();
        assert forall|i: int| 0 <= i < rest.len() implies (#[trigger] rest[i]).finite()
            && rest[i].rank() <= Binary32::unit().rank() by {
            assert(s[i].finite());
        }
        lemma_largest_in_unit(rest);
        assert(s[s.len() - 1].finite());
    }
}

/// FoolsGold's weights lie between zero and one.
pub proof fn foolsgold_weights_are_fractions<L: Fn(Binary32) -> Binary32>(
    ln: L,
    h: Seq<Seq<Binary32>>,
    i: int,
)
    requires
        is_logarithm_like(ln),
        0 <= i < h.len(),
    ensures
        foolsgold_weights_of(ln, h)[i].finite(),
        0 <= foolsgold_weights_of(ln, h)[i].rank() <= Binary32::unit().rank(),
{
    let own = distinctness(h);
    let most = largest(own);
    Binary32::nothing().unsigned_patterns();
    Binary32::unit().unsigned_patterns();
    lemma_distinctness_in_unit(h);
    if !most.at_most(Binary32::nothing()) {
        lemma_largest(own);
        lemma_largest_in_unit(own);
        assert(own[i].finite());
        own[i].finite_is_a_number();
        own[i].ratio_at_most_one(most);
        own[i].ratio_is_not_negative(most);
        let w = relative_distinctness(own[i], most);
        let cap = Binary32 { bits: 0x3f7d_70a4 };
        cap.unsigned_patterns();
        own[i].over(most).finite_is_a_number();
        assert(w.finite() && 0 <= w.rank() < Binary32::unit().rank());
        Binary32::unit().gap_is_positive(w);
        w.ratio_is_not_negative(Binary32::unit().minus(w));
        let odds = w.over(Binary32::unit().minus(w));
        assert(!image(ln, odds).nan());
        let half = Binary32 { bits: 0x3f00_0000 };
        half.unsigned_patterns();
        image(ln, odds).running_sums_are_numbers(half);
        lemma_held_in_unit(image(ln, odds).plus(half));
    }
}

/// The cosine of a finite vector other than zero with itself is one.
pub proof fn a_vector_is_wholly_like_itself(a: Seq<Binary32>, k: int)
    requires
        all_finite(a),
        0 <= k < a.len(),
        a[k].rank() != 0,
    ensures
        cosine32(a, a) == Binary32::unit(),
{
    Binary32::nothing().unsigned_patterns();
    assert(!is_zero(a[k]));
}

/// A client whose history is another's, and is not zero, gets no weight.
///
/// The logarithm of zero is taken to be minus infinity.
pub proof fn identical_histories_collapse<L: Fn(Binary32) -> Binary32>(
    ln: L,
    h: Seq<Seq<Binary32>>,
    i: int,
    j: int,
    k: int,
)
    requires
        forall|x: Binary32|
            x.finite() && x.rank() == 0 ==> #[trigger] image(ln, x) == (Binary32 {
                bits: 0xff80_0000,
            }),
        0 <= i < h.len(),
        0 <= j < h.len(),
        i != j,
        h[i] == h[j],
        all_finite(h[i]),
        0 <= k < h[i].len(),
        h[i][k].rank() != 0,
    ensures
        foolsgold_weights_of(ln, h)[i] == Binary32::nothing(),
{
    let one = Binary32::unit();
    one.unsigned_patterns();
    Binary32::nothing().unsigned_patterns();
    a_vector_is_wholly_like_itself(h[i], k);
    let all = most_alike(h);
    // the two resemble everybody else alike
    let (row, other) = (
        Seq::new(h.len(), |b: int| resemblance(h, i, b)),
        Seq::new(h.len(), |b: int| resemblance(h, j, b)),
    );
    lemma_largest(row);
    lemma_largest(other);
    assert(row[j] == one && other[i] == one);
    assert(!one.nan());
    lemma_largest_swapped(row, other, i, j);
    let own_row = Seq::new(h.len(), |b: int| pardoned(h, all, i, b));
    assert(own_row[j] == one);
    lemma_largest(own_row);
    let alike = largest(own_row);
    one.less_at_least_itself(alike);
    lemma_held_in_unit(one.minus(alike));
    let own = distinctness(h);
    assert(own[i].rank() == 0 && own[i].finite());
    let most = largest(own);
    if !most.at_most(Binary32::nothing()) {
        lemma_distinctness_in_unit(h);
        lemma_largest(own);
        lemma_largest_in_unit(own);
        own[i].zero_over(most);
        let w = own[i].over(most);
        w.finite_is_a_number();
        assert(relative_distinctness(own[i], most) == w);
        one.gap_is_positive(w);
        one.less_zero(w);
        w.zero_over(one.minus(w));
        let half = Binary32 { bits: 0x3f00_0000 };
        half.unsigned_patterns();
        let lowest = Binary32 { bits: 0xff80_0000 };
        lowest.lowest_stays(half);
    }
}

/// Two lists that differ only in that two places are swapped have largest
/// numbers in the same place of the order.
proof fn lemma_largest_swapped(s: Seq<Binary32>, t: Seq<Binary32>, i: int, j: int)
    requires
        s.len() == t.len(),
        0 <= i < s.len(),
        0 <= j < s.len(),
        s[i] == t[j],
        s[j] == t[i],
        forall|k: int| 0 <= k < s.len() && k != i && k != j ==> #[trigger] s[k] == t[k],
    ensures
        largest(s).rank() == largest(t).rank(),
{
    lemma_largest_is_one_of_them(s);
    lemma_largest_is_one_of_them(t);
    lemma_largest(s);
    lemma_largest(t);
    Binary32::nothing().unsigned_patterns();
    if largest(s).rank() != 0 {
        let k = choose|k: int| 0 <= k < s.len() && #[trigger] s[k] == largest(s);
        let l = if k == i {
            j
        } else if k == j {
            i
        } else {
            k
        };
        assert(t[l] == s[k]);
    }
    if largest(t).rank() != 0 {
        let k = choose|k: int| 0 <= k < t.len() && #[trigger] t[k] == largest(t);
        let l = if k == i {
            j
        } else if k == j {
            i
        } else {
            k
        };
        assert(s[l] == t[k]);
    }
}

/// The largest of a list that starts from zero is zero or one of the list.
proof fn lemma_largest_is_one_of_them(s: Seq<Binary32>)
    ensures
        largest(s) == Binary32::nothing() || exists|k: int|
            0 <= k < s.len() && #[trigger] s[k] == largest(s),
    decreases s.len(),
{
    if s.len() > 0 {
        let rest = s.drop_last();
        lemma_largest_is_one_of_them(rest);
        if largest(s) == largest(rest) && largest(rest) != Binary32::nothing() {
            let k = choose|k: int| 0 <= k < rest.len() && #[trigger] rest[k] == largest(rest);
            assert(s[k] == largest(s));
        } else if largest(s) != largest(rest) {
            assert(s[s.len() - 1] == largest(s));
        }
    }
}

/// How distinct a client is lies between zero and one.
proof fn lemma_distinctness_in_unit(h: Seq<Seq<Binary32>>)
    ensures
        forall|k: int|
            0 <= k < h.len() ==> (#[trigger] distinctness(h)[k]).finite() && 0
                <= distinctness(h)[k].rank() <= Binary32::unit().rank(),
{
    let own = distinctness(h);
    let all = most_alike(h);
    Binary32::nothing().unsigned_patterns();
    Binary32::unit().unsigned_patterns();
    assert forall|k: int| 0 <= k < own.len() implies (#[trigger] own[k]).finite() && 0
        <= own[k].rank() <= Binary32::unit().rank() by {
        let alike = largest(Seq::new(h.len(), |j: int| pardoned(h, all, k, j)));
        lemma_largest(Seq::new(h.len(), |j: int| pardoned(h, all, k, j)));
        Binary32::unit().less_a_number(alike);
        lemma_held_in_unit(Binary32::unit().minus(alike));
    }
}

} // verus!
