//! What the filters promise of the updates they let through.
use vstd::prelude::*;
use crate::averaging::{FedAvg, SampleCountWeighting};
use crate::delta::{picked, Delta};
use crate::float::binary32::Binary32;
use crate::laws::averaging::{a_lone_update_is_its_own_mean, a_lone_update_without_samples_is_refused, same_numbers};
use crate::order::{ranks32, stable_order, stable_order_is_a_sorted_permutation};
use crate::robust::faba::{farthest_position, without_farthest, FabaFilter};
use crate::robust::filter::{assumed_byzantine, every_index, filtered_step, indices_below, kept, lemma_kept, UpdateFilter};
use crate::robust::krum::{krum_scores_of, pool_of, KrumFilter, MultiKrumFilter};
use crate::weights::{accepted_batches_are_fit, lemma_picked_is_fit, validated};

verus! {

/// Krum gives back one of the submitted updates, number for number.
pub proof fn krum_gives_back_a_submitted_update(filter: KrumFilter, batch: Seq<Delta>)
    requires
        0 < batch.len() <= usize::MAX,
        validated(batch) is Ok,
        filtered_step::<KrumFilter, FedAvg>((filter, SampleCountWeighting), batch).0 is Ok,
    ensures
        exists|i: int|
            0 <= i < batch.len() && same_numbers(
                filtered_step::<KrumFilter, FedAvg>(
                    (filter, SampleCountWeighting),
                    batch,
                ).0->Ok_0,
                #[trigger] validated(batch)->Ok_0[i],
            ),
{
    reveal(filtered_step);
    let m = validated(batch)->Ok_0;
    filter.selects_within(batch);
    let indices = filter.selects(batch)->Ok_0;
    let i = indices[0] as int;
    assert(indices[0] < batch.len());
    lemma_picked_is_fit(batch, indices);
    assert(picked(batch, indices) =~= seq![batch[i]]);
    let lone = batch[i];
    if lone.num_samples > 0 {
        a_lone_update_is_its_own_mean(lone);
        assert(validated(seq![lone])->Ok_0[0] == m[i]);
    } else {
        a_lone_update_without_samples_is_refused(lone);
    }
}

/// As many indices are kept as a list without repetitions names.
pub proof fn lemma_kept_count(n: nat, best: Seq<usize>)
    requires
        n <= usize::MAX,
        best.no_duplicates(),
        indices_below(best, n),
    ensures
        kept(n, |i: int| best.contains(i as usize)).len() == best.len(),
{
    let keep = |i: int| best.contains(i as usize);
    lemma_kept(n, keep);
    let list = kept(n, keep);
    assert(list.no_duplicates());
    assert(list.to_set() =~= best.to_set()) by {
        assert forall|x: usize| list.to_set().contains(x) <==> best.to_set().contains(x) by {
            lemma_kept_contains(n, keep, x);
            if best.contains(x) {
                let at = choose|at: int| 0 <= at < best.len() && best[at] == x;
                assert(best[at] < n);
                assert(keep(x as int));
            }
            if list.contains(x) {
                assert(keep(x as int));
            }
        }
    }
    list.unique_seq_to_set();
    best.unique_seq_to_set();
}

/// Exactly the indices are kept that are to be.
pub proof fn lemma_kept_contains(n: nat, keep: spec_fn(int) -> bool, x: usize)
    requires
        n <= usize::MAX,
    ensures
        kept(n, keep).contains(x) <==> (x < n && keep(x as int)),
    decreases n,
{
    if n > 0 {
        let h = (n - 1) as nat;
        lemma_kept_contains(h, keep, x);
        let before = kept(h, keep);
        let after = kept(n, keep);
        if keep(n - 1) {
            assert(after == before.push(h as usize));
            assert(after[before.len() as int] == h as usize);
            if before.contains(x) {
                let at = choose|at: int| 0 <= at < before.len() && before[at] == x;
                assert(after[at] == x);
            }
            if after.contains(x) && x != h {
                let at = choose|at: int| 0 <= at < after.len() && after[at] == x;
                assert(before[at] == x);
            }
        } else {
            assert(after == before);
        }
    }
}

/// At least one update is never assumed hostile.
pub proof fn somebody_is_trusted(fraction: Binary32, n: nat)
    requires
        n > 0,
    ensures
        assumed_byzantine(fraction, n) < n,
{
}

/// Multi-Krum lets through all but the assumed number of hostile updates, and
/// so at least one.
pub proof fn multi_krum_keeps_the_rest(filter: MultiKrumFilter, batch: Seq<Delta>)
    requires
        0 < batch.len() <= usize::MAX,
        validated(batch) is Ok,
    ensures
        filter.selects(batch) is Ok,
        filter.selects(batch)->Ok_0.len() == batch.len() - assumed_byzantine(
            filter.byzantine_fraction,
            batch.len(),
        ),
        filter.selects(batch)->Ok_0.len() > 0,
{
    accepted_batches_are_fit(batch);
    let scores = krum_scores_of(filter.byzantine_fraction, validated(batch)->Ok_0);
    let order = stable_order(ranks32(scores));
    stable_order_is_a_sorted_permutation(ranks32(scores));
    let best = order.take(
        batch.len() - assumed_byzantine(filter.byzantine_fraction, batch.len()),
    );
    assert(best.no_duplicates());
    assert(indices_below(best, batch.len())) by {
        assert forall|k: int| 0 <= k < best.len() implies #[trigger] best[k] < batch.len() by {
            assert(order[k] < batch.len());
        }
    }
    lemma_kept_count(batch.len(), best);
}

proof fn lemma_without_farthest_count(
    m: Seq<Seq<Binary32>>,
    dim: nat,
    remaining: Seq<usize>,
    times: nat,
)
    requires
        times < remaining.len() <= usize::MAX,
    ensures
        without_farthest(m, dim, remaining, times).len() == remaining.len() - times,
    decreases times,
{
    if times > 0 {
        let pool = pool_of(m, remaining);
        let d = crate::robust::faba::distances_from(
            pool,
            crate::robust::faba::even_mean(pool, dim),
        );
        let order = stable_order(ranks32(d));
        stable_order_is_a_sorted_permutation(ranks32(d));
        assert(order[order.len() - 1] < pool.len());
        lemma_without_farthest_count(
            m,
            dim,
            remaining.remove(farthest_position(pool, dim)),
            (times - 1) as nat,
        );
    }
}

/// FABA removes exactly the assumed number of hostile updates, and so leaves
/// at least one.
pub proof fn faba_removes_the_assumed_number(filter: FabaFilter, batch: Seq<Delta>)
    requires
        0 < batch.len() <= usize::MAX,
        validated(batch) is Ok,
    ensures
        filter.selects(batch) is Ok,
        filter.selects(batch)->Ok_0.len() == batch.len() - assumed_byzantine(
            filter.byzantine_fraction,
            batch.len(),
        ),
        filter.selects(batch)->Ok_0.len() > 0,
{
    accepted_batches_are_fit(batch);
    let m = validated(batch)->Ok_0;
    lemma_without_farthest_count(
        m,
        m[0].len(),
        every_index(m.len()),
        assumed_byzantine(filter.byzantine_fraction, m.len()),
    );
}

} // verus!
