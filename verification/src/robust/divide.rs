//! Divide-and-Conquer: dropping the updates that vary most along the batch's
//! principal direction.
use vstd::prelude::*;
use crate::delta::{batch_of, ClientDelta, Delta};
use crate::error::{AggregatorError, Rejection};
use crate::float::binary32::Binary32;
use crate::linear::{dot32, filled32, inner_product, zeros32};
use crate::order::{as_ranks, order_by_rank, stable_order};
use crate::robust::faba::{even_mean, mean_of_rows};
use crate::robust::filter::{all_indices, assumed_byzantine, byzantine_count, collect_marked, every_index, indices_below, kept, lemma_kept, lemma_kept_same, SelectionResult, UpdateFilter};
use crate::weights::{accepted_batches_are_fit, accumulate_weighted, decode_and_validate, is_matrix, plus_weighted, rows, validated};

verus! {

/// `row` minus `center`, coordinate by coordinate.
pub open spec fn difference(row: Seq<Binary32>, center: Seq<Binary32>) -> Seq<Binary32> {
    Seq::new(row.len(), |i: int| row[i].minus(center[i]))
}

/// Every row of `m` minus `center`.
pub open spec fn centered(m: Seq<Seq<Binary32>>, center: Seq<Binary32>) -> Seq<Seq<Binary32>> {
    Seq::new(m.len(), |i: int| difference(m[i], center))
}

/// The inner product of every row of `m` with `v`.
pub open spec fn projections(m: Seq<Seq<Binary32>>, v: Seq<Binary32>) -> Seq<Binary32> {
    Seq::new(m.len(), |i: int| dot32(m[i], v))
}

/// One step of power iteration before scaling: the rows of `m`, each times
/// its projection on `v`, added up.
pub open spec fn power_product(m: Seq<Seq<Binary32>>, v: Seq<Binary32>) -> Seq<Binary32> {
    combined_rows(m, projections(m, v), v.len(), m.len())
}

/// The first `k` rows of `m`, each times its weight, added up in order.
pub open spec fn combined_rows(
    m: Seq<Seq<Binary32>>,
    weights: Seq<Binary32>,
    dim: nat,
    k: nat,
) -> Seq<Binary32>
    decreases k,
{
    if k == 0 {
        zeros32(dim)
    } else {
        plus_weighted(
            combined_rows(m, weights, dim, (k - 1) as nat),
            m[k - 1],
            weights[k - 1],
        )
    }
}

/// Adds up the rows of `m`, each times its weight, in order.
fn combine_rows(m: &Vec<Vec<Binary32>>, weights: &Vec<Binary32>, dim: usize) -> (r: Vec<Binary32>)
    requires
        weights.len() == m.len(),
        is_matrix(rows(m@), dim as nat),
    ensures
        r@ == combined_rows(rows(m@), weights@, dim as nat, m.len() as nat),
        r.len() == dim,
{
    let ghost mm = rows(m@);
    let mut acc: Vec<Binary32> = filled32(dim, Binary32::zero());
    proof {
        assert(acc@ =~= zeros32(dim as nat));
    }
    let mut k: usize = 0;
    while k < m.len()
        invariant
            k <= m.len(),
            weights.len() == m.len(),
            mm == rows(m@),
            is_matrix(mm, dim as nat),
            acc.len() == dim,
            acc@ == combined_rows(mm, weights@, dim as nat, k as nat),
        decreases m.len() - k,
    {
        proof {
            assert(mm[k as int] == m[k as int]@);
        }
        accumulate_weighted(&mut acc, &m[k], weights[k]);
        k = k + 1;
    }
    acc
}

/// Each coordinate over `by`.
pub open spec fn scaled_down(v: Seq<Binary32>, by: Binary32) -> Seq<Binary32> {
    Seq::new(v.len(), |i: int| v[i].over(by))
}

/// Below this length a direction is lost to rounding.
pub open spec fn smallest_direction() -> Binary32 {
    Binary32 { bits: 0x2b8c_bccc }
}

/// `v` after at most `times` steps of power iteration; a step that comes out
/// without length ends it.
pub open spec fn power_iterated(m: Seq<Seq<Binary32>>, v: Seq<Binary32>, times: nat) -> Seq<Binary32>
    decreases times,
{
    if times == 0 {
        v
    } else {
        let next = power_product(m, v);
        let norm = dot32(next, next).root();
        if smallest_direction().below(norm) {
            power_iterated(m, scaled_down(next, norm), (times - 1) as nat)
        } else {
            v
        }
    }
}

/// The even direction in `dim` dimensions.
pub open spec fn even_direction(dim: nat) -> Seq<Binary32> {
    Seq::new(dim, |i: int| Binary32::unit().over(Binary32::whole(dim).root()))
}

/// The direction of greatest variance of the rows of `m`, by power iteration
/// from the even direction.
pub fn top_singular_vector(m: &Vec<Vec<Binary32>>, iterations: usize) -> (r: Vec<Binary32>)
    requires
        m.len() > 0,
        is_matrix(rows(m@), rows(m@)[0].len()),
    ensures
        r@ == power_iterated(
            rows(m@),
            even_direction(rows(m@)[0].len()),
            iterations as nat,
        ),
        r.len() == rows(m@)[0].len(),
{
    let ghost mm = rows(m@);
    let dim: usize = m[0].len();
    proof {
        assert(mm[0] == m[0]@);
    }
    let start: Binary32 = Binary32::one().div(Binary32::from_u64(dim as u64).sqrt());
    let mut v: Vec<Binary32> = filled32(dim, start);
    proof {
        assert(v@ =~= even_direction(dim as nat));
    }
    let ghost goal = power_iterated(mm, v@, iterations as nat);
    let mut left: usize = iterations;
    while left > 0
        invariant
            mm == rows(m@),
            m.len() > 0,
            mm[0].len() == dim,
            is_matrix(mm, dim as nat),
            v.len() == dim,
            goal == power_iterated(mm, even_direction(dim as nat), iterations as nat),
            goal == power_iterated(mm, v@, left as nat),
        decreases left,
    {
        let weights: Vec<Binary32> = project_rows(m, &v);
        let next: Vec<Binary32> = combine_rows(m, &weights, dim);
        let norm: Binary32 = inner_product(next.as_slice(), next.as_slice()).sqrt();
        if !(Binary32 { bits: 0x2b8c_bccc }).lt(norm) {
            return v;
        }
        v = divide_all(&next, norm);
        left = left - 1;
    }
    v
}

fn project_rows(m: &Vec<Vec<Binary32>>, v: &Vec<Binary32>) -> (r: Vec<Binary32>)
    requires
        is_matrix(rows(m@), v.len() as nat),
    ensures
        r@ == projections(rows(m@), v@),
{
    let ghost mm = rows(m@);
    let mut out: Vec<Binary32> = Vec::with_capacity(m.len());
    let mut i: usize = 0;
    while i < m.len()
        invariant
            i <= m.len(),
            mm == rows(m@),
            is_matrix(mm, v.len() as nat),
            out.len() == i,
            forall|k: int| 0 <= k < i ==> #[trigger] out[k] == dot32(mm[k], v@),
        decreases m.len() - i,
    {
        proof {
            assert(mm[i as int].len() == v.len());
        }
        out.push(inner_product(m[i].as_slice(), v.as_slice()));
        i = i + 1;
    }
    proof {
        assert(out@ =~= projections(mm, v@));
    }
    out
}

fn divide_all(v: &Vec<Binary32>, by: Binary32) -> (r: Vec<Binary32>)
    ensures
        r@ == scaled_down(v@, by),
{
    let mut out: Vec<Binary32> = Vec::with_capacity(v.len());
    let mut i: usize = 0;
    while i < v.len()
        invariant
            i <= v.len(),
            out.len() == i,
            forall|k: int| 0 <= k < i ==> #[trigger] out[k] == v[k].over(by),
        decreases v.len() - i,
    {
        out.push(v[i].div(by));
        i = i + 1;
    }
    proof {
        assert(out@ =~= scaled_down(v@, by));
    }
    out
}

fn subtract_from_rows(m: &Vec<Vec<Binary32>>, center: &Vec<Binary32>) -> (r: Vec<Vec<Binary32>>)
    requires
        is_matrix(rows(m@), center.len() as nat),
    ensures
        rows(r@) == centered(rows(m@), center@),
{
    let ghost mm = rows(m@);
    let mut out: Vec<Vec<Binary32>> = Vec::with_capacity(m.len());
    let mut i: usize = 0;
    while i < m.len()
        invariant
            i <= m.len(),
            mm == rows(m@),
            is_matrix(mm, center.len() as nat),
            out.len() == i,
            forall|k: int| 0 <= k < i ==> (#[trigger] out[k])@ == difference(mm[k], center@),
        decreases m.len() - i,
    {
        proof {
            assert(mm[i as int].len() == center.len());
        }
        let mut row: Vec<Binary32> = Vec::with_capacity(center.len());
        let mut j: usize = 0;
        while j < center.len()
            invariant
                j <= center.len(),
                i < m.len(),
                mm == rows(m@),
                mm[i as int].len() == center.len(),
                row.len() == j,
                forall|k: int| 0 <= k < j ==> #[trigger] row[k] == mm[i as int][k].minus(center[k]),
            decreases center.len() - j,
        {
            let x: Binary32 = m[i][j];
            row.push(x.sub(center[j]));
            j = j + 1;
        }
        proof {
            assert(row@ =~= difference(mm[i as int], center@));
        }
        out.push(row);
        i = i + 1;
    }
    proof {
        assert(rows(out@) =~= centered(mm, center@));
    }
    out
}

/// The score of each row: its squared projection on the principal direction
/// of the centered rows.
pub open spec fn spectral_scores(m: Seq<Seq<Binary32>>, iterations: nat) -> Seq<Binary32> {
    let c = centered(m, even_mean(m, m[0].len()));
    let v = power_iterated(c, even_direction(m[0].len()), iterations);
    Seq::new(m.len(), |i: int| dot32(c[i], v).times(dot32(c[i], v)))
}

/// Ranks from the highest down.
pub open spec fn descending_ranks(scores: Seq<Binary32>) -> Seq<int> {
    Seq::new(scores.len(), |i: int| -scores[i].rank())
}

/// Divide-and-Conquer: drops, as often as updates are assumed hostile, the
/// highest-scored update, the first of several.
#[derive(Debug, Clone, Copy)]
pub struct DivideAndConquerFilter {
    /// The assumed fraction of hostile updates.
    pub byzantine_fraction: Binary32,
    /// How many steps the principal direction is approached in.
    pub power_iterations: usize,
}

impl Default for DivideAndConquerFilter {
    fn default() -> (r: Self)
        ensures
            r.byzantine_fraction == (Binary32 { bits: 0x3e4c_cccd }),
            r.power_iterations == 30,
    {
        DivideAndConquerFilter {
            byzantine_fraction: Binary32 { bits: 0x3e4c_cccd },
            power_iterations: 30,
        }
    }
}

impl UpdateFilter for DivideAndConquerFilter {
    open spec fn judges(&self, n: nat) -> bool {
        true
    }

    open spec fn selects(&self, batch: Seq<Delta>) -> Result<Seq<usize>, Rejection> {
        match validated(batch) {
            Err(e) => Err(e),
            Ok(m) => {
                let n = m.len();
                let f = assumed_byzantine(self.byzantine_fraction, n);
                if f == 0 {
                    Ok(every_index(n))
                } else {
                    let scores = spectral_scores(m, self.power_iterations as nat);
                    let excluded = stable_order(descending_ranks(scores)).take(f as int);
                    Ok(kept(n, |i: int| !excluded.contains(i as usize)))
                }
            },
        }
    }

    proof fn selects_within(&self, batch: Seq<Delta>) {
        if validated(batch) is Ok {
            accepted_batches_are_fit(batch);
            let scores = spectral_scores(validated(batch)->Ok_0, self.power_iterations as nat);
            let excluded = stable_order(descending_ranks(scores)).take(
                assumed_byzantine(self.byzantine_fraction, batch.len()) as int,
            );
            lemma_kept(batch.len(), |i: int| !excluded.contains(i as usize));
        }
    }

    fn filter(&self, updates: &[ClientDelta]) -> (r: Result<SelectionResult, AggregatorError>) {
        let ghost batch = batch_of(updates@);
        let m: Vec<Vec<Binary32>> = match decode_and_validate(updates) {
            Ok(m) => m,
            Err(e) => {
                return Err(e);
            },
        };
        let ghost mm = rows(m@);
        let n: usize = m.len();
        proof {
            accepted_batches_are_fit(batch);
        }
        let f: usize = byzantine_count(self.byzantine_fraction, n);
        if f == 0 {
            return Ok(SelectionResult { selected_indices: all_indices(n) });
        }
        proof {
            assert(mm[0] == m[0]@);
        }
        let dim: usize = m[0].len();
        let mean: Vec<Binary32> = mean_of_rows(&m, dim);
        let c: Vec<Vec<Binary32>> = subtract_from_rows(&m, &mean);
        proof {
            assert forall|i: int| 0 <= i < c.len() implies (#[trigger] rows(c@)[i]).len() == dim by {
                assert(mm[i].len() == dim);
            }
        }
        let v: Vec<Binary32> = top_singular_vector(&c, self.power_iterations);
        let ghost scores = spectral_scores(mm, self.power_iterations as nat);
        let mut ranks: Vec<i64> = Vec::with_capacity(n);
        let mut i: usize = 0;
        while i < n
            invariant
                i <= n,
                n == c.len(),
                n == mm.len(),
                v.len() == dim,
                is_matrix(rows(c@), dim as nat),
                rows(c@) == centered(mm, even_mean(mm, mm[0].len())),
                v@ == power_iterated(
                    rows(c@),
                    even_direction(mm[0].len()),
                    self.power_iterations as nat,
                ),
                scores == spectral_scores(mm, self.power_iterations as nat),
                ranks.len() == i,
                forall|k: int| 0 <= k < i ==> #[trigger] ranks[k] == -scores[k].rank(),
            decreases n - i,
        {
            proof {
                assert(rows(c@)[i as int].len() == dim);
            }
            let p: Binary32 = inner_product(c[i].as_slice(), v.as_slice());
            let score: Binary32 = p.mul(p);
            proof {
                assert(score == scores[i as int]);
            }
            let key: i64 = score.order_key();
            ranks.push(opposite(key));
            i = i + 1;
        }
        proof {
            assert(as_ranks(ranks@) =~= descending_ranks(scores));
        }
        let order: Vec<usize> = order_by_rank(&ranks);
        let mut marks: Vec<bool> = Vec::with_capacity(n);
        let mut j: usize = 0;
        while j < n
            invariant
                j <= n,
                marks.len() == j,
                forall|k: int| 0 <= k < j ==> #[trigger] marks[k],
            decreases n - j,
        {
            marks.push(true);
            j = j + 1;
        }
        let mut dropped: usize = 0;
        while dropped < f
            invariant
                dropped <= f,
                f < n,
                order.len() == n,
                marks.len() == n,
                indices_below(order@, n as nat),
                forall|k: int|
                    0 <= k < n ==> #[trigger] marks[k] == !order@.take(dropped as int).contains(
                        k as usize,
                    ),
            decreases f - dropped,
        {
            let at: usize = order[dropped];
            marks.set(at, false);
            proof {
                let t0 = order@.take(dropped as int);
                let t1 = order@.take(dropped + 1);
                assert forall|k: int| 0 <= k < n implies #[trigger] marks[k] == !t1.contains(
                    k as usize,
                ) by {
                    if k == at {
                        assert(t1[dropped as int] == at);
                    } else {
                        if t0.contains(k as usize) {
                            let a = choose|a: int| 0 <= a < t0.len() && t0[a] == k as usize;
                            assert(t1[a] == k as usize);
                        }
                        if t1.contains(k as usize) {
                            let a = choose|a: int| 0 <= a < t1.len() && t1[a] == k as usize;
                            assert(a < dropped);
                            assert(t0[a] == k as usize);
                        }
                    }
                }
            }
            dropped = dropped + 1;
        }
        proof {
            let excluded = stable_order(descending_ranks(scores)).take(f as int);
            lemma_kept_same(n as nat, |i: int| marks[i], |i: int| !excluded.contains(i as usize));
        }
        Ok(SelectionResult { selected_indices: collect_marked(&marks) })
    }
}

/// The opposite of a rank.
fn opposite(key: i64) -> (r: i64)
    requires
        key > i64::MIN,
    ensures
        r == -key,
{
    -key
}

} // verus!
