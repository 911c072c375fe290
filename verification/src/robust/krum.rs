//! Krum, Multi-Krum and Bulyan: updates scored by their distance to their
//! nearest neighbours.
use vstd::prelude::*;
use crate::delta::{batch_of, ClientDelta, Delta};
use crate::error::{AggregatorError, Rejection};
use crate::float::binary32::Binary32;
use crate::linear::{copy32, distance32, l2_distance, sum32, total32};
use crate::order::{first_lowest, lowest32, order32, ranks32, sort32, sorted32, stable_order, stable_order_is_a_sorted_permutation};
use crate::robust::filter::{all_indices, ascending, assumed_byzantine, byzantine_count, every_index, in_ascending_order, indices_below, kept, lemma_kept, SelectionResult, UpdateFilter};
use crate::weights::{accepted_batches_are_fit, decode_and_validate, is_matrix, rows, validated};

verus! {

/// The distance of rows `i` and `j` of `m`; none of a row to itself.
pub open spec fn pair_distance(m: Seq<Seq<Binary32>>, i: int, j: int) -> Binary32 {
    if i == j {
        Binary32::nothing()
    } else if i < j {
        distance32(m[i], m[j])
    } else {
        distance32(m[j], m[i])
    }
}

/// Every pairwise distance of the rows of `m`.
pub open spec fn distance_table(m: Seq<Seq<Binary32>>) -> Seq<Seq<Binary32>> {
    Seq::new(m.len(), |i: int| Seq::new(m.len(), |j: int| pair_distance(m, i, j)))
}

/// Distances are the same in both directions, and nothing is away from itself.
pub proof fn distances_are_symmetric(m: Seq<Seq<Binary32>>, i: int, j: int)
    requires
        0 <= i < m.len(),
        0 <= j < m.len(),
    ensures
        distance_table(m)[i][j] == distance_table(m)[j][i],
        distance_table(m)[i][i] == Binary32::nothing(),
{
}

/// Pairwise Euclidean distances of a batch's decoded weight vectors.
pub struct DistanceMatrix {
    distances: Vec<Vec<Binary32>>,
}

impl View for DistanceMatrix {
    type V = Seq<Seq<Binary32>>;

    closed spec fn view(&self) -> Seq<Seq<Binary32>> {
        rows(self.distances@)
    }
}

impl DistanceMatrix {
    /// Computes every pairwise distance of a batch once.
    pub fn from_updates(updates: &[ClientDelta]) -> (r: Result<DistanceMatrix, AggregatorError>)
        ensures
            match (r, validated(batch_of(updates@))) {
                (Ok(d), Ok(m)) => d@ == distance_table(m),
                (Err(e), Err(s)) => e@ == s,
                _ => false,
            },
    {
        match decode_and_validate(updates) {
            Ok(m) => {
                proof {
                    accepted_batches_are_fit(batch_of(updates@));
                    if updates.len() == 0 {
                        assert(is_matrix(rows(m@), 0));
                    }
                }
                let ghost dim: nat = if updates.len() == 0 {
                    0
                } else {
                    batch_of(updates@)[0].weights.len() / 4
                };
                Ok(DistanceMatrix::from_rows(&m, Ghost(dim)))
            },
            Err(e) => Err(e),
        }
    }

    /// Computes every pairwise distance of the rows of `m` once.
    fn from_rows(m: &Vec<Vec<Binary32>>, Ghost(dim): Ghost<nat>) -> (r: DistanceMatrix)
        requires
            is_matrix(rows(m@), dim),
        ensures
            r@ == distance_table(rows(m@)),
    {
        let ghost mm = rows(m@);
        let n: usize = m.len();
        let mut d: Vec<Vec<Binary32>> = Vec::with_capacity(n);
        let mut i: usize = 0;
        while i < n
            invariant
                i <= n,
                n == m.len(),
                mm == rows(m@),
                is_matrix(mm, dim),
                d.len() == i,
                forall|a: int| 0 <= a < i ==> (#[trigger] d[a])@ == distance_table(mm)[a],
            decreases n - i,
        {
            let mut row: Vec<Binary32> = Vec::with_capacity(n);
            let mut j: usize = 0;
            while j < n
                invariant
                    j <= n,
                    i < n,
                    n == m.len(),
                    mm == rows(m@),
                    is_matrix(mm, dim),
                    row.len() == j,
                    d.len() == i,
                    forall|a: int| 0 <= a < i ==> (#[trigger] d[a])@ == distance_table(mm)[a],
                    forall|b: int| 0 <= b < j ==> #[trigger] row[b] == pair_distance(
                        mm,
                        i as int,
                        b,
                    ),
                decreases n - j,
            {
                if j < i {
                    proof {
                        assert(d[j as int]@ == distance_table(mm)[j as int]);
                    }
                    let known: Binary32 = d[j][i];
                    row.push(known);
                } else if j == i {
                    row.push(Binary32::zero());
                } else {
                    proof {
                        assert(mm[i as int].len() == mm[j as int].len());
                    }
                    row.push(l2_distance(m[i].as_slice(), m[j].as_slice()));
                }
                j = j + 1;
            }
            proof {
                assert(row@ =~= distance_table(mm)[i as int]);
            }
            d.push(row);
            i = i + 1;
        }
        proof {
            assert(rows(d@) =~= distance_table(mm));
        }
        DistanceMatrix { distances: d }
    }

    /// The distance of updates `i` and `j`.
    pub fn distance(&self, i: usize, j: usize) -> (r: Binary32)
        requires
            i < self@.len(),
            j < self@[i as int].len(),
        ensures
            r == self@[i as int][j as int],
    {
        self.distances[i][j]
    }

    /// How many updates the matrix covers.
    pub fn len(&self) -> (r: usize)
        ensures
            r == self@.len(),
    {
        self.distances.len()
    }

    /// Whether the matrix covers no updates.
    pub fn is_empty(&self) -> (r: bool)
        ensures
            r == (self@.len() == 0),
    {
        self.distances.len() == 0
    }
}

/// How many neighbours a score sums over: all but the assumed hostile and two
/// more, and at least one.
pub open spec fn neighbour_count(fraction: Binary32, n: nat) -> nat {
    let f = assumed_byzantine(fraction, n);
    let most: nat = if n >= 2 { (n - 1) as nat } else { 1 };
    let wanted: nat = if n > f + 2 { (n - f - 2) as nat } else { 1 };
    if wanted < most {
        wanted
    } else {
        most
    }
}

/// The squared distances of row `i` to every other row, in row order.
pub open spec fn squares_to_others(m: Seq<Seq<Binary32>>, i: int) -> Seq<Binary32> {
    Seq::new(
        m.len(),
        |j: int| pair_distance(m, i, j).times(pair_distance(m, i, j)),
    ).remove(i)
}

/// The first `k` terms, or all of them where there are fewer.
pub open spec fn at_most_first(s: Seq<Binary32>, k: nat) -> Seq<Binary32> {
    if k < s.len() {
        s.take(k as int)
    } else {
        s
    }
}

/// The score of row `i`: the squared distances to its nearest neighbours,
/// added up from the nearest on.
pub open spec fn krum_score(fraction: Binary32, m: Seq<Seq<Binary32>>, i: int) -> Binary32 {
    sum32(at_most_first(sorted32(squares_to_others(m, i)), neighbour_count(fraction, m.len())))
}

/// The score of every row.
pub open spec fn krum_scores_of(fraction: Binary32, m: Seq<Seq<Binary32>>) -> Seq<Binary32> {
    Seq::new(m.len(), |i: int| krum_score(fraction, m, i))
}

/// Scores every row by its distance to its nearest neighbours.
fn krum_scores(fraction: Binary32, m: &Vec<Vec<Binary32>>, Ghost(dim): Ghost<nat>) -> (r: Vec<
    Binary32,
>)
    requires
        is_matrix(rows(m@), dim),
    ensures
        r@ == krum_scores_of(fraction, rows(m@)),
{
    let ghost mm = rows(m@);
    let n: usize = m.len();
    let table: DistanceMatrix = DistanceMatrix::from_rows(m, Ghost(dim));
    let f: usize = byzantine_count(fraction, n);
    let most: usize = if n >= 2 {
        n - 1
    } else {
        1
    };
    let wanted: usize = if n - f > 2 {
        n - f - 2
    } else {
        1
    };
    let count: usize = if wanted < most {
        wanted
    } else {
        most
    };
    let mut scores: Vec<Binary32> = Vec::with_capacity(n);
    let mut i: usize = 0;
    while i < n
        invariant
            i <= n,
            n == mm.len(),
            table@ == distance_table(mm),
            count as nat == neighbour_count(fraction, n as nat),
            scores.len() == i,
            forall|k: int| 0 <= k < i ==> #[trigger] scores[k] == krum_score(fraction, mm, k),
        decreases n - i,
    {
        let ghost all = Seq::new(
            mm.len(),
            |j: int| pair_distance(mm, i as int, j).times(pair_distance(mm, i as int, j)),
        );
        let mut squares: Vec<Binary32> = Vec::with_capacity(n);
        let mut j: usize = 0;
        while j < n
            invariant
                j <= n,
                i < n,
                n == mm.len(),
                table@ == distance_table(mm),
                all == Seq::new(
                    mm.len(),
                    |j: int| pair_distance(mm, i as int, j).times(pair_distance(mm, i as int, j)),
                ),
                squares@ == if j <= i { all.take(j as int) } else { all.take(j as int).remove(
                    i as int,
                ) },
            decreases n - j,
        {
            if j != i {
                let d: Binary32 = table.distance(i, j);
                squares.push(d.mul(d));
            }
            proof {
                if j < i {
                    assert(squares@ =~= all.take(j + 1));
                } else if j == i {
                    assert(squares@ =~= all.take(j + 1).remove(i as int));
                } else {
                    assert(squares@ =~= all.take(j + 1).remove(i as int));
                }
            }
            j = j + 1;
        }
        proof {
            assert(all.take(n as int) =~= all);
            assert(squares@ == squares_to_others(mm, i as int));
        }
        let mut nearest: Vec<Binary32> = sort32(squares.as_slice());
        nearest.truncate(count);
        proof {
            assert(nearest@ =~= at_most_first(
                sorted32(squares_to_others(mm, i as int)),
                count as nat,
            ));
        }
        scores.push(total32(nearest.as_slice()));
        i = i + 1;
    }
    proof {
        assert(scores@ =~= krum_scores_of(fraction, mm));
    }
    scores
}

/// Krum: keeps the one update with the lowest score, the first of several.
#[derive(Debug, Clone, Copy)]
pub struct KrumFilter {
    /// The assumed fraction of hostile updates.
    pub byzantine_fraction: Binary32,
}

impl UpdateFilter for KrumFilter {
    open spec fn judges(&self, n: nat) -> bool {
        n > 0
    }

    open spec fn selects(&self, batch: Seq<Delta>) -> Result<Seq<usize>, Rejection> {
        match validated(batch) {
            Err(e) => Err(e),
            Ok(m) => Ok(
                seq![first_lowest(ranks32(krum_scores_of(self.byzantine_fraction, m))) as usize],
            ),
        }
    }

    proof fn selects_within(&self, batch: Seq<Delta>) {
        if validated(batch) is Ok {
            accepted_batches_are_fit(batch);
            let scores = krum_scores_of(self.byzantine_fraction, validated(batch)->Ok_0);
            stable_order_is_a_sorted_permutation(ranks32(scores));
            assert(stable_order(ranks32(scores))[0] < batch.len());
        }
    }

    fn filter(&self, updates: &[ClientDelta]) -> (r: Result<SelectionResult, AggregatorError>) {
        let ghost batch = batch_of(updates@);
        let m: Vec<Vec<Binary32>> = match decode_and_validate(updates) {
            Ok(m) => m,
            Err(e) => {
                return Err(e);
            },
        };
        proof {
            accepted_batches_are_fit(batch);
        }
        let scores: Vec<Binary32> = krum_scores(
            self.byzantine_fraction,
            &m,
            Ghost(batch[0].weights.len() / 4),
        );
        let best: usize = lowest32(scores.as_slice());
        let chosen: Vec<usize> = vec![best];
        proof {
            assert(chosen@ =~= seq![
                first_lowest(ranks32(krum_scores_of(self.byzantine_fraction, rows(m@)))) as usize,
            ]);
        }
        Ok(SelectionResult { selected_indices: chosen })
    }
}

/// Multi-Krum: the scoring of Krum, keeping all but the assumed hostile
/// number of updates.
#[derive(Debug, Clone, Copy)]
pub struct MultiKrumFilter {
    /// The assumed fraction of hostile updates.
    pub byzantine_fraction: Binary32,
}

/// The `count` lowest-ranked indices of `scores`, in ascending order.
pub open spec fn lowest_ranked(scores: Seq<Binary32>, count: nat) -> Seq<usize> {
    let best = stable_order(ranks32(scores)).take(count as int);
    kept(scores.len(), |i: int| best.contains(i as usize))
}

impl UpdateFilter for MultiKrumFilter {
    open spec fn judges(&self, n: nat) -> bool {
        true
    }

    open spec fn selects(&self, batch: Seq<Delta>) -> Result<Seq<usize>, Rejection> {
        match validated(batch) {
            Err(e) => Err(e),
            Ok(m) => Ok(
                lowest_ranked(
                    krum_scores_of(self.byzantine_fraction, m),
                    (m.len() - assumed_byzantine(self.byzantine_fraction, m.len())) as nat,
                ),
            ),
        }
    }

    proof fn selects_within(&self, batch: Seq<Delta>) {
        if validated(batch) is Ok {
            accepted_batches_are_fit(batch);
            let scores = krum_scores_of(self.byzantine_fraction, validated(batch)->Ok_0);
            let best = stable_order(ranks32(scores)).take(
                batch.len() - assumed_byzantine(self.byzantine_fraction, batch.len()),
            );
            lemma_kept(batch.len(), |i: int| best.contains(i as usize));
        }
    }

    fn filter(&self, updates: &[ClientDelta]) -> (r: Result<SelectionResult, AggregatorError>) {
        let ghost batch = batch_of(updates@);
        let m: Vec<Vec<Binary32>> = match decode_and_validate(updates) {
            Ok(m) => m,
            Err(e) => {
                return Err(e);
            },
        };
        let ghost dim: nat = if batch.len() == 0 {
            0
        } else {
            batch[0].weights.len() / 4
        };
        proof {
            accepted_batches_are_fit(batch);
        }
        let n: usize = m.len();
        let scores: Vec<Binary32> = krum_scores(self.byzantine_fraction, &m, Ghost(dim));
        let f: usize = byzantine_count(self.byzantine_fraction, n);
        let mut best: Vec<usize> = order32(scores.as_slice());
        best.truncate(n - f);
        proof {
            assert(best@ =~= stable_order(ranks32(scores@)).take(n - f));
        }
        Ok(SelectionResult { selected_indices: in_ascending_order(&best, n) })
    }
}


/// The rows of `m` at `indices`, in that order.
pub open spec fn pool_of(m: Seq<Seq<Binary32>>, indices: Seq<usize>) -> Seq<Seq<Binary32>> {
    Seq::new(indices.len(), |k: int| m[indices[k] as int])
}

/// Copies the rows of `m` at `indices`.
pub fn gather_rows(m: &Vec<Vec<Binary32>>, indices: &Vec<usize>) -> (r: Vec<Vec<Binary32>>)
    requires
        indices_below(indices@, m.len() as nat),
    ensures
        rows(r@) == pool_of(rows(m@), indices@),
{
    let mut out: Vec<Vec<Binary32>> = Vec::with_capacity(indices.len());
    let mut k: usize = 0;
    while k < indices.len()
        invariant
            k <= indices.len(),
            indices_below(indices@, m.len() as nat),
            out.len() == k,
            forall|j: int| 0 <= j < k ==> (#[trigger] out[j])@ == m[indices[j] as int]@,
        decreases indices.len() - k,
    {
        out.push(copy32(m[indices[k]].as_slice()));
        k = k + 1;
    }
    proof {
        assert(rows(out@) =~= pool_of(rows(m@), indices@));
    }
    out
}

/// The updates Bulyan selects: the lowest-scored of the pool, again and
/// again, the rest of the pool scored anew each time.
pub open spec fn bulyan_selection(
    fraction: Binary32,
    m: Seq<Seq<Binary32>>,
    remaining: Seq<usize>,
    selected: Seq<usize>,
    wanted: nat,
) -> Seq<usize>
    decreases wanted - selected.len(),
{
    if selected.len() < wanted && remaining.len() > 1 {
        let scores = krum_scores_of(fraction, pool_of(m, remaining));
        let best = first_lowest(ranks32(scores)) as int;
        bulyan_selection(
            fraction,
            m,
            remaining.remove(best),
            selected.push(remaining[best]),
            wanted,
        )
    } else if selected.len() < wanted {
        selected + remaining
    } else {
        selected
    }
}

/// How many updates Bulyan selects.
pub open spec fn bulyan_size(fraction: Binary32, n: nat) -> nat {
    let f = assumed_byzantine(fraction, n);
    if n > 2 * f {
        (n - 2 * f) as nat
    } else {
        1
    }
}

/// Bulyan: applies Krum to a shrinking pool until all but twice the assumed
/// hostile number of updates are selected.
#[derive(Debug, Clone, Copy)]
pub struct BulyanFilter {
    /// The assumed fraction of hostile updates.
    pub byzantine_fraction: Binary32,
}

impl UpdateFilter for BulyanFilter {
    open spec fn judges(&self, n: nat) -> bool {
        true
    }

    open spec fn selects(&self, batch: Seq<Delta>) -> Result<Seq<usize>, Rejection> {
        let n = batch.len();
        let wanted = bulyan_size(self.byzantine_fraction, n);
        if n <= 1 {
            Ok(every_index(n))
        } else {
            match validated(batch) {
                Err(e) => Err(e),
                Ok(m) => {
                    let chosen = bulyan_selection(
                        self.byzantine_fraction,
                        m,
                        every_index(n),
                        Seq::empty(),
                        wanted,
                    );
                    Ok(kept(n, |i: int| chosen.contains(i as usize)))
                },
            }
        }
    }

    proof fn selects_within(&self, batch: Seq<Delta>) {
        if batch.len() > 1 && validated(batch) is Ok {
            let chosen = bulyan_selection(
                self.byzantine_fraction,
                validated(batch)->Ok_0,
                every_index(batch.len()),
                Seq::empty(),
                bulyan_size(self.byzantine_fraction, batch.len()),
            );
            lemma_kept(batch.len(), |i: int| chosen.contains(i as usize));
        }
    }

    fn filter(&self, updates: &[ClientDelta]) -> (r: Result<SelectionResult, AggregatorError>) {
        let ghost batch = batch_of(updates@);
        let n: usize = updates.len();
        if n <= 1 {
            return Ok(SelectionResult { selected_indices: all_indices(n) });
        }
        let m: Vec<Vec<Binary32>> = match decode_and_validate(updates) {
            Ok(m) => m,
            Err(e) => {
                return Err(e);
            },
        };
        let ghost dim: nat = batch[0].weights.len() / 4;
        let ghost mm = rows(m@);
        proof {
            accepted_batches_are_fit(batch);
        }
        let f: usize = byzantine_count(self.byzantine_fraction, n);
        let wanted: usize = if n - f > f {
            n - f - f
        } else {
            1
        };
        let mut remaining: Vec<usize> = all_indices(n);
        let mut selected: Vec<usize> = Vec::with_capacity(wanted);
        while selected.len() < wanted && remaining.len() > 1
            invariant
                mm == rows(m@),
                m.len() == n,
                is_matrix(mm, dim),
                indices_below(remaining@, n as nat),
                indices_below(selected@, n as nat),
                bulyan_selection(
                    self.byzantine_fraction,
                    mm,
                    every_index(n as nat),
                    Seq::empty(),
                    wanted as nat,
                ) == bulyan_selection(
                    self.byzantine_fraction,
                    mm,
                    remaining@,
                    selected@,
                    wanted as nat,
                ),
            decreases wanted - selected.len(),
        {
            let pool: Vec<Vec<Binary32>> = gather_rows(&m, &remaining);
            proof {
                assert(is_matrix(rows(pool@), dim)) by {
                    assert forall|i: int| 0 <= i < pool.len() implies (#[trigger] rows(
                        pool@,
                    )[i]).len() == dim by {
                        assert(remaining[i] < n);
                        assert(mm[remaining[i] as int].len() == dim);
                    }
                }
            }
            let scores: Vec<Binary32> = krum_scores(self.byzantine_fraction, &pool, Ghost(dim));
            let best: usize = lowest32(scores.as_slice());
            let ghost before = remaining@;
            let taken: usize = remaining.remove(best);
            proof {
                assert(taken == before[best as int]);
                assert forall|k: int| 0 <= k < remaining.len() implies #[trigger] remaining[k] < n by {
                    if k < best {
                        assert(remaining[k] == before[k]);
                    } else {
                        assert(remaining[k] == before[k + 1]);
                    }
                }
            }
            selected.push(taken);
        }
        if selected.len() < wanted {
            let ghost first = selected@;
            selected.append(&mut remaining);
        }
        Ok(SelectionResult { selected_indices: in_ascending_order(&selected, n) })
    }
}

} // verus!
