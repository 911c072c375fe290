//! What the filters that judge by distance, score or direction drop.
use vstd::prelude::*;
use vstd::arithmetic::div_mod::*;
use vstd::arithmetic::mul::*;
use vstd::arithmetic::power2::*;
use crate::delta::Delta;
use crate::flanders::filter::{forecast_of, kept_count, known_ids, ranks64, scores_of, survivors, FlandersTuning};
use crate::float::binary32::Binary32;
use crate::float::binary64::Binary64;
use crate::float::drift::{far, lemma_far_product, unity, val};
use crate::float::format::Format;
use crate::float::ieee::lemma_units_zero;
use crate::float::laws::{lemma_sizes, lemma_unpack};
use crate::float::slip::size32;
use crate::float::wide::{lemma_rough_gap, lemma_wide, lemma_wide_negated, lemma_wide_product, rough, val64};
use crate::history::History;
use crate::laws::moments::{lemma_single_within, lemma_within};
use crate::laws::nearest::{are_rows, is_as_close, lemma_accepted_rows, lemma_as_close};
use crate::laws::selection::{lemma_kept_contains, lemma_kept_count};
use crate::linear::{distance32, distance_squared64, dot32};
use crate::order::{first_lowest, ranks32, stable_order, stable_order_is_a_sorted_permutation};
use crate::robust::divide::{centered, descending_ranks, even_direction, power_iterated, spectral_scores, DivideAndConquerFilter};
use crate::robust::faba::{distances_from, even_mean, farthest_position, without_farthest, FabaFilter};
use crate::robust::filter::{assumed_byzantine, every_index, indices_below, kept, lemma_kept_same, UpdateFilter};
use crate::robust::krum::{bulyan_selection, bulyan_size, krum_scores_of, pool_of, BulyanFilter};
use crate::trusted::zeno::{score_of, suspicion, suspicion_ranks, zeno_round, Scores};
use crate::weights::{accepted_batches_are_fit, all_finite, validated};

verus! {

/// Whether `after` is `before` without an update than which none lies farther
/// from the mean of those before.
pub open spec fn drops_the_farthest(
    m: Seq<Seq<Binary32>>,
    before: Seq<usize>,
    after: Seq<usize>,
) -> bool {
    exists|x: int|
        {
            &&& 0 <= x < before.len()
            &&& after == #[trigger] before.remove(x)
            &&& forall|y: int|
                0 <= y < before.len() ==> distance32(
                    m[#[trigger] before[y] as int],
                    even_mean(pool_of(m, before), m[0].len()),
                ).rank() <= distance32(
                    m[before[x] as int],
                    even_mean(pool_of(m, before), m[0].len()),
                ).rank()
        }
}

proof fn lemma_drops_the_farthest(m: Seq<Seq<Binary32>>, before: Seq<usize>)
    requires
        0 < before.len() <= usize::MAX,
    ensures
        drops_the_farthest(
            m,
            before,
            before.remove(farthest_position(pool_of(m, before), m[0].len())),
        ),
{
    let pool = pool_of(m, before);
    let center = even_mean(pool, m[0].len());
    let ranks = ranks32(distances_from(pool, center));
    stable_order_is_a_sorted_permutation(ranks);
    let p = stable_order(ranks);
    let l = p.len() - 1;
    let x = farthest_position(pool, m[0].len());
    assert(p[l] < ranks.len());
    assert forall|y: int| 0 <= y < before.len() implies distance32(
        m[#[trigger] before[y] as int],
        center,
    ).rank() <= distance32(m[before[x] as int], center).rank() by {
        assert(p.contains(y as usize));
        let q = choose|q: int| 0 <= q < p.len() && p[q] == y as usize;
        if q < l {
            assert(ranks[p[q] as int] <= ranks[p[l] as int]);
        }
        assert(ranks[y] == distance32(m[before[y] as int], center).rank());
        assert(ranks[x] == distance32(m[before[x] as int], center).rank());
    }
}

proof fn lemma_faba_chain(m: Seq<Seq<Binary32>>, before: Seq<usize>, times: nat) -> (chain: Seq<
    Seq<usize>,
>)
    requires
        times < before.len() <= usize::MAX,
    ensures
        chain.len() == times + 1,
        chain[0] == before,
        chain.last() == without_farthest(m, m[0].len(), before, times),
        forall|k: int|
            0 <= k < times ==> drops_the_farthest(m, #[trigger] chain[k], chain[k + 1]),
    decreases times,
{
    if times == 0 {
        seq![before]
    } else {
        lemma_drops_the_farthest(m, before);
        let pool = pool_of(m, before);
        let ranks = ranks32(distances_from(pool, even_mean(pool, m[0].len())));
        stable_order_is_a_sorted_permutation(ranks);
        assert(stable_order(ranks)[ranks.len() - 1] < ranks.len());
        let after = before.remove(farthest_position(pool, m[0].len()));
        let rest = lemma_faba_chain(m, after, (times - 1) as nat);
        let chain = seq![before] + rest;
        assert forall|k: int| 0 <= k < times implies drops_the_farthest(
            m,
            #[trigger] chain[k],
            chain[k + 1],
        ) by {
            if k > 0 {
                assert(chain[k] == rest[k - 1]);
                assert(chain[k + 1] == rest[k]);
            }
        }
        assert(chain.last() == rest.last());
        chain
    }
}

/// FABA drops, one after the other, the update farthest from the mean of those
/// that are left, as often as updates are assumed hostile.
pub proof fn faba_drops_the_farthest(filter: FabaFilter, batch: Seq<Delta>)
    requires
        0 < batch.len() <= usize::MAX,
        filter.selects(batch) is Ok,
    ensures
        exists|chain: Seq<Seq<usize>>|
            {
                &&& chain.len() == assumed_byzantine(filter.byzantine_fraction, batch.len()) + 1
                &&& #[trigger] chain[0] == every_index(batch.len())
                &&& #[trigger] chain.last() == filter.selects(batch)->Ok_0
                &&& forall|k: int|
                    0 <= k < chain.len() - 1 ==> drops_the_farthest(
                        validated(batch)->Ok_0,
                        #[trigger] chain[k],
                        chain[k + 1],
                    )
            },
{
    accepted_batches_are_fit(batch);
    let m = validated(batch)->Ok_0;
    let chain = lemma_faba_chain(
        m,
        every_index(m.len()),
        assumed_byzantine(filter.byzantine_fraction, m.len()),
    );
    assert(chain[0] == every_index(batch.len()));
    assert(chain.last() == filter.selects(batch)->Ok_0);
}

/// Whether `left` and `chosen` follow on `before` and `taken` by taking an
/// update in the closest company, the first of several.
pub open spec fn takes_the_closest(
    fraction: Binary32,
    m: Seq<Seq<Binary32>>,
    before: Seq<usize>,
    left: Seq<usize>,
    taken: Seq<usize>,
    chosen: Seq<usize>,
) -> bool {
    exists|x: int|
        {
            &&& 0 <= x < before.len()
            &&& left == #[trigger] before.remove(x)
            &&& chosen == taken.push(before[x])
            &&& forall|y: int|
                0 <= y < before.len() ==> #[trigger] is_as_close(
                    fraction,
                    pool_of(m, before),
                    x,
                    y,
                )
            &&& forall|y: int|
                0 <= y < x ==> !#[trigger] is_as_close(fraction, pool_of(m, before), y, x)
        }
}

proof fn lemma_takes_the_closest(
    fraction: Binary32,
    m: Seq<Seq<Binary32>>,
    before: Seq<usize>,
    taken: Seq<usize>,
)
    requires
        are_rows(m),
        m.len() <= usize::MAX,
        2 <= before.len() <= usize::MAX,
        indices_below(before, m.len()),
    ensures
        ({
            let best = first_lowest(ranks32(krum_scores_of(fraction, pool_of(m, before)))) as int;
            &&& 0 <= best < before.len()
            &&& takes_the_closest(
                fraction,
                m,
                before,
                before.remove(best),
                taken,
                taken.push(before[best]),
            )
        }),
{
    let pool = pool_of(m, before);
    let ranks = ranks32(krum_scores_of(fraction, pool));
    let x = first_lowest(ranks) as int;
    stable_order_is_a_sorted_permutation(ranks);
    let p = stable_order(ranks);
    assert(p[0] < pool.len());
    assert(are_rows(pool)) by {
        assert forall|i: int| 0 <= i < pool.len() implies all_finite(
            #[trigger] pool[i],
        ) by {
            assert(before[i] < m.len());
        }
        assert forall|i: int, j: int| 0 <= i < pool.len() && 0 <= j < pool.len() implies (
        #[trigger] pool[i]).len() == (#[trigger] pool[j]).len() by {
            assert(before[i] < m.len());
            assert(before[j] < m.len());
            assert(m[before[i] as int].len() == m[before[j] as int].len());
        }
    }
    assert forall|y: int| 0 <= y < pool.len() implies #[trigger] is_as_close(fraction, pool, x, y)
        && (y < x ==> !is_as_close(fraction, pool, y, x)) by {
        assert(p.contains(y as usize));
        let q = choose|q: int| 0 <= q < p.len() && p[q] == y as usize;
        if q > 0 {
            assert(ranks[p[0] as int] < ranks[p[q] as int] || (ranks[p[0] as int]
                == ranks[p[q] as int] && p[0] < p[q]));
        }
        lemma_as_close(fraction, pool, x, y);
        lemma_as_close(fraction, pool, y, x);
    }
    assert forall|y: int| 0 <= y < x implies !#[trigger] is_as_close(fraction, pool, y, x) by {
        assert(is_as_close(fraction, pool, x, y));
    }
}

/// Whether `pools` and `choices` are what Bulyan goes through: each step takes
/// the update in the closest company from what is left.
pub open spec fn is_bulyan_run(
    fraction: Binary32,
    m: Seq<Seq<Binary32>>,
    pools: Seq<Seq<usize>>,
    choices: Seq<Seq<usize>>,
) -> bool {
    &&& pools.len() == choices.len() > 0
    &&& forall|k: int|
        0 <= k < pools.len() - 1 ==> takes_the_closest(
            fraction,
            m,
            #[trigger] pools[k],
            pools[k + 1],
            choices[k],
            choices[k + 1],
        )
}

proof fn lemma_bulyan_run(
    fraction: Binary32,
    m: Seq<Seq<Binary32>>,
    left: Seq<usize>,
    taken: Seq<usize>,
    wanted: nat,
) -> (r: (Seq<Seq<usize>>, Seq<Seq<usize>>))
    requires
        are_rows(m),
        m.len() <= usize::MAX,
        1 <= left.len() <= usize::MAX,
        indices_below(left, m.len()),
        taken.len() <= wanted,
        wanted < taken.len() + left.len(),
    ensures
        is_bulyan_run(fraction, m, r.0, r.1),
        r.0[0] == left,
        r.1[0] == taken,
        r.1.last() == bulyan_selection(fraction, m, left, taken, wanted),
        r.1.last().len() == wanted,
    decreases wanted - taken.len(),
{
    if taken.len() < wanted {
        lemma_takes_the_closest(fraction, m, left, taken);
        let best = first_lowest(ranks32(krum_scores_of(fraction, pool_of(m, left)))) as int;
        let after = left.remove(best);
        assert(indices_below(after, m.len())) by {
            assert forall|k: int| 0 <= k < after.len() implies #[trigger] after[k] < m.len() by {
                assert(after[k] == left[if k < best { k } else { k + 1 }]);
            }
        }
        let rest = lemma_bulyan_run(fraction, m, after, taken.push(left[best]), wanted);
        let pools = seq![left] + rest.0;
        let choices = seq![taken] + rest.1;
        assert forall|k: int| 0 <= k < pools.len() - 1 implies takes_the_closest(
            fraction,
            m,
            #[trigger] pools[k],
            pools[k + 1],
            choices[k],
            choices[k + 1],
        ) by {
            if k > 0 {
                assert(pools[k] == rest.0[k - 1]);
                assert(pools[k + 1] == rest.0[k]);
                assert(choices[k] == rest.1[k - 1]);
                assert(choices[k + 1] == rest.1[k]);
            }
        }
        assert(choices.last() == rest.1.last());
        (pools, choices)
    } else {
        (seq![left], seq![taken])
    }
}

/// Bulyan takes, one after the other, the update in the closest company among
/// those that are left, until all but twice the assumed hostile number are
/// taken.
pub proof fn bulyan_takes_the_closest(filter: BulyanFilter, batch: Seq<Delta>)
    requires
        2 <= batch.len() <= usize::MAX,
        filter.selects(batch) is Ok,
        assumed_byzantine(filter.byzantine_fraction, batch.len()) > 0,
    ensures
        exists|pools: Seq<Seq<usize>>, choices: Seq<Seq<usize>>|
            {
                &&& #[trigger] is_bulyan_run(
                    filter.byzantine_fraction,
                    validated(batch)->Ok_0,
                    pools,
                    choices,
                )
                &&& pools[0] == every_index(batch.len())
                &&& choices[0].len() == 0
                &&& choices.last().len() == (if batch.len() > 2 * assumed_byzantine(
                    filter.byzantine_fraction,
                    batch.len(),
                ) {
                    batch.len() - 2 * assumed_byzantine(filter.byzantine_fraction, batch.len())
                } else {
                    1
                })
                &&& forall|i: usize| #[trigger]
                    filter.selects(batch)->Ok_0.contains(i) <==> i < batch.len()
                        && choices.last().contains(i)
            },
{
    lemma_accepted_rows(batch);
    accepted_batches_are_fit(batch);
    let m = validated(batch)->Ok_0;
    let f = filter.byzantine_fraction;
    let n = batch.len();
    let run = lemma_bulyan_run(f, m, every_index(n), Seq::empty(), bulyan_size(f, n));
    let chosen = run.1.last();
    assert forall|i: usize| #[trigger]
        filter.selects(batch)->Ok_0.contains(i) <==> i < n && chosen.contains(i) by {
        let keep = |x: int| chosen.contains(x as usize);
        lemma_kept_contains(n, keep, i);
    }
}

/// Divide-and-Conquer drops, as often as updates are assumed hostile, the one
/// farthest along the principal direction from the mean: no update that is
/// kept has a larger square there than one that is dropped.
pub proof fn the_farthest_along_are_dropped(
    filter: DivideAndConquerFilter,
    batch: Seq<Delta>,
    i: int,
    j: int,
)
    requires
        0 < batch.len() <= usize::MAX,
        filter.selects(batch) is Ok,
        0 <= i < batch.len(),
        0 <= j < batch.len(),
        filter.selects(batch)->Ok_0.contains(i as usize),
        !filter.selects(batch)->Ok_0.contains(j as usize),
    ensures
        ({
            let m = validated(batch)->Ok_0;
            let c = centered(m, even_mean(m, m[0].len()));
            let v = power_iterated(
                c,
                even_direction(m[0].len()),
                filter.power_iterations as nat,
            );
            dot32(c[i], v).times(dot32(c[i], v)).rank() <= dot32(c[j], v).times(
                dot32(c[j], v),
            ).rank()
        }),
{
    accepted_batches_are_fit(batch);
    let m = validated(batch)->Ok_0;
    let n = m.len();
    let f = assumed_byzantine(filter.byzantine_fraction, n);
    if f == 0 {
        let all = every_index(n);
        assert(all[j] == j as usize);
        assert(false);
    }
    let scores = spectral_scores(m, filter.power_iterations as nat);
    let ranks = descending_ranks(scores);
    stable_order_is_a_sorted_permutation(ranks);
    let p = stable_order(ranks);
    let excluded = p.take(f as int);
    let keep = |x: int| !excluded.contains(x as usize);
    lemma_kept_contains(n, keep, i as usize);
    lemma_kept_contains(n, keep, j as usize);
    let a = choose|a: int| 0 <= a < excluded.len() && excluded[a] == j as usize;
    assert(p.contains(i as usize));
    let b = choose|b: int| 0 <= b < p.len() && p[b] == i as usize;
    if b < f {
        assert(excluded[b] == i as usize);
    }
    assert(ranks[p[a] as int] <= ranks[p[b] as int]);
}

/// Divide-and-Conquer keeps all but the assumed number of hostile updates.
pub proof fn divide_drops_the_assumed_number(filter: DivideAndConquerFilter, batch: Seq<Delta>)
    requires
        0 < batch.len() <= usize::MAX,
        validated(batch) is Ok,
    ensures
        filter.selects(batch) is Ok,
        filter.selects(batch)->Ok_0.len() == batch.len() - assumed_byzantine(
            filter.byzantine_fraction,
            batch.len(),
        ),
{
    accepted_batches_are_fit(batch);
    let m = validated(batch)->Ok_0;
    let n = m.len();
    let f = assumed_byzantine(filter.byzantine_fraction, n);
    if f > 0 {
        let ranks = descending_ranks(spectral_scores(m, filter.power_iterations as nat));
        stable_order_is_a_sorted_permutation(ranks);
        let p = stable_order(ranks);
        let excluded = p.take(f as int);
        let rest = p.skip(f as int);
        let (spared, listed) = (
            |i: int| !excluded.contains(i as usize),
            |i: int| rest.contains(i as usize),
        );
        assert forall|x: int| 0 <= x < n implies #[trigger] spared(x) == listed(x) by {
            assert(p.contains(x as usize));
            let q = choose|q: int| 0 <= q < p.len() && p[q] == x as usize;
            if q < f {
                assert(excluded[q] == x as usize);
            } else {
                assert(rest[q - f] == x as usize);
                if excluded.contains(x as usize) {
                    let a = choose|a: int| 0 <= a < excluded.len() && excluded[a] == x as usize;
                    assert(p[a] == p[q]);
                }
            }
            if rest.contains(x as usize) {
                let b = choose|b: int| 0 <= b < rest.len() && rest[b] == x as usize;
                assert(p[b + f] == x as usize);
            }
        }
        lemma_kept_same(n, spared, listed);
        assert(indices_below(rest, n)) by {
            assert forall|k: int| 0 <= k < rest.len() implies #[trigger] rest[k] < n by {
                assert(p[k + f] < n);
            }
        }
        lemma_kept_count(n, rest);
    }
}

/// Zeno averages evenly the candidates with the best scores: all but the
/// assumed hostile number, none of which scores below one that is left out.
pub proof fn zeno_averages_the_best(
    fraction: Binary32,
    rho: Binary32,
    given: Scores,
    batch: Seq<Delta>,
    m: Seq<Seq<Binary32>>,
)
    requires
        0 < batch.len() <= usize::MAX,
        m.len() == batch.len(),
    ensures
        exists|best: Seq<usize>|
            {
                &&& best.len() == batch.len() - assumed_byzantine(fraction, batch.len())
                &&& best.no_duplicates()
                &&& indices_below(best, batch.len())
                &&& zeno_round(fraction, rho, given, batch, m) == even_mean(
                    #[trigger] pool_of(m, best),
                    m[0].len(),
                )
                &&& forall|i: usize, j: usize|
                    best.contains(i) && !best.contains(j) && j < batch.len() ==> suspicion(
                        score_of(given.scores, (#[trigger] batch[j as int]).client_id)->0,
                        rho,
                        m[j as int],
                        given.global,
                    ).total_rank() <= suspicion(
                        score_of(given.scores, (#[trigger] batch[i as int]).client_id)->0,
                        rho,
                        m[i as int],
                        given.global,
                    ).total_rank()
            },
{
    let n = batch.len();
    let ranks = suspicion_ranks(batch, m, given, rho);
    stable_order_is_a_sorted_permutation(ranks);
    let p = stable_order(ranks);
    let best = p.take(n - assumed_byzantine(fraction, n));
    assert(indices_below(best, n)) by {
        assert forall|k: int| 0 <= k < best.len() implies #[trigger] best[k] < n by {
            assert(p[k] < n);
        }
    }
    assert(best.no_duplicates());
    assert forall|i: usize, j: usize|
        best.contains(i) && !best.contains(j) && j < n implies suspicion(
        score_of(given.scores, (#[trigger] batch[j as int]).client_id)->0,
        rho,
        m[j as int],
        given.global,
    ).total_rank() <= suspicion(
        score_of(given.scores, (#[trigger] batch[i as int]).client_id)->0,
        rho,
        m[i as int],
        given.global,
    ).total_rank() by {
        let a = choose|a: int| 0 <= a < best.len() && best[a] == i;
        assert(p.contains(j));
        let b = choose|b: int| 0 <= b < p.len() && p[b] == j;
        if b < best.len() {
            assert(best[b] == j);
        }
        assert(ranks[p[a] as int] <= ranks[p[b] as int]);
    }
    assert(zeno_round(fraction, rho, given, batch, m) == even_mean(
        pool_of(m, best),
        m[0].len(),
    ));
}

/// FLANDERS keeps nobody who scores higher than somebody it drops: the larger
/// the distance from the forecast, or without one from the global model, the
/// sooner a client is dropped.
pub proof fn flanders_drops_the_most_anomalous(
    t: FlandersTuning,
    history: Seq<History>,
    global: Option<Seq<Binary32>>,
    batch: Seq<Delta>,
    m: Seq<Seq<Binary32>>,
    i: int,
    j: int,
)
    requires
        0 < batch.len() <= usize::MAX,
        0 <= i < batch.len(),
        0 <= j < batch.len(),
        survivors(t, history, global, batch, m).contains(i as usize),
        !survivors(t, history, global, batch, m).contains(j as usize),
    ensures
        scores_of(t, history, global, batch, m)[i].rank() <= scores_of(
            t,
            history,
            global,
            batch,
            m,
        )[j].rank(),
{
    let n = batch.len();
    let ranks = ranks64(scores_of(t, history, global, batch, m));
    let order = known_ids(batch, history, n);
    let signal = forecast_of(t, history, order, m[0].len()) is Some || global is Some;
    stable_order_is_a_sorted_permutation(ranks);
    let p = stable_order(ranks);
    let count = kept_count(t.byzantine_fraction, n, signal) as int;
    assert(0 <= count <= n);
    let best = p.take(count);
    let keep = |x: int| best.contains(x as usize);
    lemma_kept_contains(n, keep, i as usize);
    lemma_kept_contains(n, keep, j as usize);
    let a = choose|a: int| 0 <= a < best.len() && best[a] == i as usize;
    assert(p.contains(j as usize));
    let b = choose|b: int| 0 <= b < p.len() && p[b] == j as usize;
    if b < count {
        assert(best[b] == j as usize);
    }
    assert(ranks[p[a] as int] <= ranks[p[b] as int]);
}

/// As many updates are assumed hostile as the fraction of the batch has whole
/// ones, and never all of them.
pub proof fn the_assumed_number_is_the_whole_share(fraction: Binary32, n: nat)
    requires
        0 < n <= u64::MAX,
        fraction.times(Binary32::whole(n)).finite(),
        0 <= fraction.times(Binary32::whole(n)).rank(),
    ensures
        assumed_byzantine(fraction, n) * unity() <= size32(fraction.times(Binary32::whole(n))),
        assumed_byzantine(fraction, n) < n - 1 ==> size32(fraction.times(Binary32::whole(n))) < (
        assumed_byzantine(fraction, n) + 1) * unity(),
        assumed_byzantine(fraction, n) <= n - 1,
{
    let f = Format::Single;
    let x = fraction.times(Binary32::whole(n));
    let u = unity() as int;
    let s = size32(x) as int;
    lemma_pow2_pos(149);
    reveal(Binary32::finite);
    reveal(Binary32::rank);
    reveal(Binary32::floor_nat);
    lemma_sizes(f);
    lemma_units_zero(f);
    lemma_unpack(f, x.bits as nat);
    let w = x.floor_nat();
    let q = s / u;
    assert(w <= q && (w < u64::MAX ==> w == q));
    lemma_fundamental_div_mod(s, u);
    lemma_mod_bound(s, u);
    lemma_mul_is_commutative(u, q);
    let a = assumed_byzantine(fraction, n);
    assert(a * u <= q * u) by (nonlinear_arith)
        requires
            a <= q,
            u > 0,
    ;
    assert((a + 1) * u == a * u + u) by (nonlinear_arith);
}

/// The score Zeno ranks by is the one given less the penalty, `rho` times the
/// square of the distance from the global model, but for roundings.
pub proof fn suspicion_is_the_score_less_the_penalty(
    score: Binary32,
    rho: Binary32,
    weights: Seq<Binary32>,
    global: Seq<Binary32>,
)
    requires
        score.finite(),
        rho.finite(),
        distance_squared64(weights, global).finite(),
        far(val64(distance_squared64(weights, global))) <= pow2(1500),
        far(val(rho)) * far(val64(distance_squared64(weights, global))) == 0 || far(
            val64(distance_squared64(weights, global)),
        ) >= pow2(200),
    ensures
        ({
            let d = val64(distance_squared64(weights, global));
            rough(
                val64(suspicion(score, rho, weights, global)) * unity(),
                val(score) * pow2(1074) - val(rho) * d,
                far(val(score)) * pow2(1074) + far(val(rho)) * far(d),
                4,
            )
        }),
{
    let d64 = distance_squared64(weights, global);
    let d = val64(d64);
    let (k, u, t) = (pow2(925), unity(), pow2(1074));
    let (s, r) = (val(score), val(rho));
    lemma_wide(score);
    lemma_wide(rho);
    lemma_single_within(score);
    lemma_single_within(rho);
    lemma_pow2_pos(149);
    lemma_pow2_pos(1074);
    lemma_pow2_adds(149, 925);
    lemma_penalty(rho, d64);
    let x = rho.as_binary64().times(d64);
    let fr = far(r) * far(d);
    lemma_wide_negated(x);
    // the difference of the exact score and the rounded penalty
    lemma_within(far(s), k, 277, 925);
    lemma_far_product(s, k as int);
    lemma_pow2_strictly_increases(1202, 1999);
    lemma_pow2_unfold(2000);
    lemma_pow2_strictly_increases(2000, 2080);
    let y = score.as_binary64().minus(x);
    assert(far(val64(x)) <= pow2(1999));
    lemma_rough_gap(score.as_binary64(), x);
    let z = s * k - val64(x);
    let v = val64(y);
    assert(suspicion(score, rho, weights, global) == y);
    // in units of u
    let (e, w) = (s * t - r * d, far(s) * t + fr);
    assert((s * k) * u == s * t) by (nonlinear_arith)
        requires
            t == u * k,
    ;
    assert(v * u - e == (v - z) * u - (val64(x) * u - r * d)) by (nonlinear_arith)
        requires
            z == s * k - val64(x),
            e == s * t - r * d,
            (s * k) * u == s * t,
    ;
    lemma_far_product(v - z, u as int);
    let (a, b) = (far(v - z), far(z));
    assert(z * u == s * t - val64(x) * u) by (nonlinear_arith)
        requires
            z == s * k - val64(x),
            (s * k) * u == s * t,
    ;
    lemma_far_product(z, u as int);
    lemma_far_product(s, t as int);
    lemma_far_product(r, d);
    assert(0x4_0000_0000_0000 * (a * u) <= b * u) by (nonlinear_arith)
        requires
            0x4_0000_0000_0000 * a <= 1 * b,
    ;
}

proof fn lemma_penalty(rho: Binary32, d: Binary64)
    requires
        rho.finite(),
        d.finite(),
        far(val64(d)) <= pow2(1500),
        far(val(rho)) * far(val64(d)) == 0 || far(val64(d)) >= pow2(200),
    ensures
        rho.as_binary64().times(d).finite(),
        far(val64(rho.as_binary64().times(d))) <= pow2(1999),
        0x4_0000_0000_0000 * far(
            val64(rho.as_binary64().times(d)) * unity() - val(rho) * val64(d),
        ) <= 2 * (far(val(rho)) * far(val64(d))),
{
    let x = rho.as_binary64();
    let (r, v, k, u, t) = (val(rho), val64(d), pow2(925), unity(), pow2(1074));
    lemma_wide(rho);
    lemma_single_within(rho);
    lemma_pow2_pos(149);
    lemma_pow2_pos(925);
    lemma_pow2_pos(1074);
    lemma_pow2_adds(149, 925);
    lemma_far_product(r, k as int);
    let (fr, fv) = (far(r), far(v));
    let w = fr * fv;
    lemma_within(fr, k, 277, 925);
    lemma_within(fr * k, fv, 1202, 1500);
    lemma_pow2_adds(2090, 1074);
    lemma_pow2_strictly_increases(2702, 3164);
    lemma_wide_product(x, d);
    let p = val64(x.times(d));
    // 2^53 |p t - r k v| <= w k + 2^52 t, and t is u k
    let g = p * u - r * v;
    assert(p * t - (r * k) * v == g * k) by (nonlinear_arith)
        requires
            t == u * k,
            g == p * u - r * v,
    ;
    lemma_far_product(g, k as int);
    let fg = far(g);
    assert((fr * k) * fv == w * k) by (nonlinear_arith)
        requires
            w == fr * fv,
    ;
    let c = w + 0x10_0000_0000_0000 * u;
    assert(c * k == w * k + 0x10_0000_0000_0000 * t) by (nonlinear_arith)
        requires
            c == w + 0x10_0000_0000_0000 * u,
            t == u * k,
    ;
    assert(0x20_0000_0000_0000 * (fg * k) == (0x20_0000_0000_0000 * fg) * k) by (nonlinear_arith);
    if 0x20_0000_0000_0000 * fg > c {
        lemma_mul_strict_inequality(c as int, (0x20_0000_0000_0000 * fg) as int, k as int);
    }
    lemma_far_product(r, v);
    lemma_far_product(p, u as int);
    if w == 0 {
        assert(p == 0) by {
            assert(far(p) * u <= fg);
            if far(p) >= 1 {
                assert(far(p) * u >= u) by (nonlinear_arith)
                    requires
                        far(p) >= 1,
                ;
            }
        }
        assert(0 * u == 0);
        lemma_pow2_pos(1999);
    } else {
        lemma2_to64();
        lemma2_to64_rest();
        lemma_pow2_adds(49, 149);
        lemma_pow2_strictly_increases(198, 200);
        assert(fv <= w) by (nonlinear_arith)
            requires
                w == fr * fv,
                w != 0,
        ;
        assert(0x2_0000_0000_0000 * u <= w);
        lemma_within(fr, fv, 277, 1500);
        assert(far(p) * u <= 2 * w);
        lemma_pow2_unfold(1778);
        lemma_pow2_strictly_increases(1778, 1999);
        if far(p) > pow2(1999) {
            assert(far(p) * u >= far(p)) by (nonlinear_arith)
                requires
                    u >= 1,
            ;
        }
    }
}

/// Where there is a signal FLANDERS drops the assumed hostile share of the
/// clients, a part of one counted whole, and always keeps one; without a
/// signal it keeps all.
pub proof fn flanders_drops_the_share_rounded_up(fraction: Binary32, n: nat)
    requires
        0 < n < u64::MAX,
        fraction.times(Binary32::whole(n)).finite(),
        0 <= fraction.times(Binary32::whole(n)).rank(),
    ensures
        kept_count(fraction, n, false) == n,
        1 <= kept_count(fraction, n, true) <= n,
        kept_count(fraction, n, true) > 1 ==> size32(fraction.times(Binary32::whole(n))) <= (n
            - kept_count(fraction, n, true)) * unity(),
        kept_count(fraction, n, true) < n ==> (n - kept_count(fraction, n, true) - 1) * unity()
            < size32(fraction.times(Binary32::whole(n))),
{
    let f = Format::Single;
    let x = fraction.times(Binary32::whole(n));
    let u = unity() as int;
    let s = size32(x) as int;
    lemma_pow2_pos(149);
    reveal(Binary32::finite);
    reveal(Binary32::rank);
    reveal(Binary32::ceil_nat);
    lemma_sizes(f);
    lemma_units_zero(f);
    lemma_unpack(f, x.bits as nat);
    let w = x.ceil_nat() as int;
    let q = s / u;
    lemma_fundamental_div_mod(s, u);
    lemma_mod_bound(s, u);
    lemma_mul_is_commutative(u, q);
    let c = if s % u == 0 {
        q
    } else {
        q + 1
    };
    assert(w == c || (w == u64::MAX && w <= c));
    assert((q + 1) * u == q * u + u) by (nonlinear_arith);
    assert((c - 1) * u < s <= c * u || s == 0) by {
        if s % u == 0 {
            assert((c - 1) * u == c * u - u) by (nonlinear_arith);
        }
    }
    let k = kept_count(fraction, n, true);
    let d = n - k;
    if k > 1 {
        assert(d == w);
    }
    if k < n {
        assert(d <= w && w > 0);
        if s == 0 {
            assert(0int / u == 0 && 0int % u == 0) by {
                lemma_small_mod(0, u as nat);
                lemma_basic_div(0, u);
            }
        }
        assert((d - 1) * u <= (c - 1) * u) by (nonlinear_arith)
            requires
                d <= c,
                u > 0,
        ;
    }
}

} // verus!
