//! FABA: repeatedly removing the update farthest from the mean of the rest.
use vstd::prelude::*;
use crate::averaging::{add_weighted_rows, weighted_rows};
use crate::delta::{batch_of, ClientDelta, Delta};
use crate::error::{AggregatorError, Rejection};
use crate::float::binary32::Binary32;
use crate::linear::{distance32, filled32, l2_distance};
use crate::order::{order32, ranks32, stable_order, stable_order_is_a_sorted_permutation};
use crate::robust::filter::{all_indices, ascending, assumed_byzantine, byzantine_count, every_index, indices_below, SelectionResult, UpdateFilter};
use crate::robust::krum::{gather_rows, pool_of};
use crate::weights::{accepted_batches_are_fit, decode_and_validate, is_matrix, rows, validated};

verus! {

/// One over `n`.
pub open spec fn equal_share(n: nat) -> Binary32 {
    Binary32::unit().over(Binary32::whole(n))
}

/// The unweighted mean of the rows of `m`, the share taken off each term.
pub open spec fn even_mean(m: Seq<Seq<Binary32>>, dim: nat) -> Seq<Binary32> {
    weighted_rows(m, Seq::new(m.len(), |i: int| equal_share(m.len())), dim, m.len())
}

/// The unweighted mean of the rows of `m`.
pub fn mean_of_rows(m: &Vec<Vec<Binary32>>, dim: usize) -> (r: Vec<Binary32>)
    requires
        is_matrix(rows(m@), dim as nat),
    ensures
        r@ == even_mean(rows(m@), dim as nat),
        r.len() == dim,
{
    let share: Binary32 = Binary32::one().div(Binary32::from_u64(m.len() as u64));
    let shares: Vec<Binary32> = filled32(m.len(), share);
    proof {
        assert(shares@ =~= Seq::new(rows(m@).len(), |i: int| equal_share(rows(m@).len())));
    }
    add_weighted_rows(m, &shares, dim)
}

/// The distance of each row of `m` from `center`.
pub open spec fn distances_from(m: Seq<Seq<Binary32>>, center: Seq<Binary32>) -> Seq<Binary32> {
    Seq::new(m.len(), |i: int| distance32(m[i], center))
}

/// The position of the row farthest from the mean, the last of several.
pub open spec fn farthest_position(m: Seq<Seq<Binary32>>, dim: nat) -> int {
    stable_order(ranks32(distances_from(m, even_mean(m, dim)))).last() as int
}

/// What is left after removing the farthest update `times` times.
pub open spec fn without_farthest(
    m: Seq<Seq<Binary32>>,
    dim: nat,
    remaining: Seq<usize>,
    times: nat,
) -> Seq<usize>
    decreases times,
{
    if times == 0 || remaining.len() <= 1 {
        remaining
    } else {
        without_farthest(
            m,
            dim,
            remaining.remove(farthest_position(pool_of(m, remaining), dim)),
            (times - 1) as nat,
        )
    }
}

proof fn lemma_without_farthest(
    m: Seq<Seq<Binary32>>,
    dim: nat,
    remaining: Seq<usize>,
    times: nat,
)
    requires
        m.len() <= usize::MAX,
        remaining.len() <= usize::MAX,
        indices_below(remaining, m.len()),
        ascending(remaining),
    ensures
        indices_below(without_farthest(m, dim, remaining, times), m.len()),
        ascending(without_farthest(m, dim, remaining, times)),
    decreases times,
{
    if times > 0 && remaining.len() > 1 {
        let pool = pool_of(m, remaining);
        let ranks = ranks32(distances_from(pool, even_mean(pool, dim)));
        stable_order_is_a_sorted_permutation(ranks);
        let worst = farthest_position(pool, dim);
        assert(stable_order(ranks)[remaining.len() - 1] < remaining.len());
        let rest = remaining.remove(worst);
        assert forall|j: int| 0 <= j < rest.len() implies #[trigger] rest[j] < m.len() by {
            assert(rest[j] == if j < worst { remaining[j] } else { remaining[j + 1] });
        }
        assert forall|a: int, b: int| 0 <= a < b < rest.len() implies #[trigger] rest[a]
            < #[trigger] rest[b] by {
            let pa = if a < worst { a } else { a + 1 };
            let pb = if b < worst { b } else { b + 1 };
            assert(rest[a] == remaining[pa] && rest[b] == remaining[pb]);
        }
        lemma_without_farthest(m, dim, rest, (times - 1) as nat);
    }
}

/// FABA: removes, as often as updates are assumed hostile, the one farthest
/// from the mean of those that are left.
#[derive(Debug, Clone, Copy)]
pub struct FabaFilter {
    /// The assumed fraction of hostile updates.
    pub byzantine_fraction: Binary32,
}

impl UpdateFilter for FabaFilter {
    open spec fn judges(&self, n: nat) -> bool {
        true
    }

    open spec fn selects(&self, batch: Seq<Delta>) -> Result<Seq<usize>, Rejection> {
        match validated(batch) {
            Err(e) => Err(e),
            Ok(m) => Ok(
                without_farthest(
                    m,
                    m[0].len(),
                    every_index(m.len()),
                    assumed_byzantine(self.byzantine_fraction, m.len()),
                ),
            ),
        }
    }

    proof fn selects_within(&self, batch: Seq<Delta>) {
        if validated(batch) is Ok {
            accepted_batches_are_fit(batch);
            let m = validated(batch)->Ok_0;
            lemma_without_farthest(
                m,
                m[0].len(),
                every_index(m.len()),
                assumed_byzantine(self.byzantine_fraction, m.len()),
            );
        }
    }

    fn filter(&self, updates: &[ClientDelta]) -> (r: Result<SelectionResult, AggregatorError>) {
        let ghost batch = batch_of(updates@);
        let m: Vec<Vec<Binary32>> = match decode_and_validate(updates) {
            Ok(m) => m,
            Err(e) => {
                return Err(e);
            },
        };
        let ghost mm = rows(m@);
        let n: usize = m.len();
        proof {
            accepted_batches_are_fit(batch);
        }
        let f: usize = byzantine_count(self.byzantine_fraction, n);
        let mut remaining: Vec<usize> = all_indices(n);
        if n == 0 {
            return Ok(SelectionResult { selected_indices: remaining });
        }
        let dim: usize = m[0].len();
        let ghost goal = without_farthest(mm, dim as nat, every_index(n as nat), f as nat);
        proof {
            assert(mm[0].len() == dim);
        }
        let mut left: usize = f;
        while left > 0 && remaining.len() > 1
            invariant
                mm == rows(m@),
                m.len() == n,
                is_matrix(mm, dim as nat),
                indices_below(remaining@, n as nat),
                ascending(remaining@),
                goal == without_farthest(mm, dim as nat, remaining@, left as nat),
            decreases left,
        {
            let pool: Vec<Vec<Binary32>> = gather_rows(&m, &remaining);
            proof {
                assert forall|i: int| 0 <= i < pool.len() implies (#[trigger] rows(pool@)[i]).len()
                    == dim by {
                    assert(remaining[i] < n);
                    assert(mm[remaining[i] as int].len() == dim);
                }
            }
            let mean: Vec<Binary32> = mean_of_rows(&pool, dim);
            let mut apart: Vec<Binary32> = Vec::with_capacity(pool.len());
            let mut k: usize = 0;
            while k < pool.len()
                invariant
                    k <= pool.len(),
                    is_matrix(rows(pool@), dim as nat),
                    mean.len() == dim,
                    apart.len() == k,
                    forall|j: int|
                        0 <= j < k ==> #[trigger] apart[j] == distance32(pool[j]@, mean@),
                decreases pool.len() - k,
            {
                proof {
                    assert(rows(pool@)[k as int].len() == dim);
                }
                apart.push(l2_distance(pool[k].as_slice(), mean.as_slice()));
                k = k + 1;
            }
            proof {
                assert(apart@ =~= distances_from(rows(pool@), mean@));
            }
            let order: Vec<usize> = order32(apart.as_slice());
            let worst: usize = order[order.len() - 1];
            let ghost before = remaining@;
            remaining.remove(worst);
            proof {
                assert forall|j: int| 0 <= j < remaining.len() implies #[trigger] remaining[j] < n by {
                    assert(remaining[j] == if j < worst { before[j] } else { before[j + 1] });
                }
                assert forall|a: int, b: int| 0 <= a < b < remaining.len() implies
                    #[trigger] remaining[a] < #[trigger] remaining[b] by {
                    let pa = if a < worst { a } else { a + 1 };
                    let pb = if b < worst { b } else { b + 1 };
                    assert(remaining[a] == before[pa] && remaining[b] == before[pb]);
                }
            }
            left = left - 1;
        }
        Ok(SelectionResult { selected_indices: remaining })
    }
}

} // verus!
