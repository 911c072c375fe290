//! Zeno: candidates ranked by scores from held-out data, the most suspicious
//! dropped.
use vstd::prelude::*;
use crate::aggregator::{outcome, Aggregator};
use crate::averaging::lemma_weighted_rows_len;
use crate::delta::{batch_of, ClientDelta, Delta};
use crate::error::{AggregatorError, Rejection};
use crate::float::binary32::Binary32;
use crate::float::binary64::Binary64;
use crate::linear::{distance_squared64, squared_distance64};
use crate::order::{as_ranks, order_by_rank, stable_order};
use crate::robust::faba::{equal_share, even_mean, mean_of_rows};
use crate::robust::filter::{assumed_byzantine, byzantine_count, indices_below};
use crate::robust::krum::{gather_rows, pool_of};
use crate::weights::{accepted_batches_are_fit, decode_and_validate, first_where, is_matrix, lemma_first_where, rows, validated};

verus! {

/// One round's score for each candidate, and the model they are relative to.
#[derive(Debug, Clone)]
pub struct CandidateScores {
    /// The global model the round started from.
    pub global_weights: Vec<Binary32>,
    /// A score for each client, higher being better.
    pub scores: Vec<(String, Binary32)>,
}

/// What a round's scores hold, as mathematical values.
pub struct Scores {
    pub global: Seq<Binary32>,
    pub scores: Seq<(Seq<char>, Binary32)>,
}

impl View for CandidateScores {
    type V = Scores;

    open spec fn view(&self) -> Scores {
        Scores {
            global: self.global_weights@,
            scores: Seq::new(
                self.scores.len() as nat,
                |i: int| (self.scores[i].0@, self.scores[i].1),
            ),
        }
    }
}

/// The last score listed for `id`.
pub open spec fn score_of(scores: Seq<(Seq<char>, Binary32)>, id: Seq<char>) -> Option<Binary32>
    decreases scores.len(),
{
    if scores.len() == 0 {
        None
    } else if scores.last().0 == id {
        Some(scores.last().1)
    } else {
        score_of(scores.drop_last(), id)
    }
}

/// Whether an update before `i` came from the same client.
pub open spec fn seen_before(batch: Seq<Delta>, i: int) -> bool {
    exists|j: int| 0 <= j < i && (#[trigger] batch[j]).client_id == batch[i].client_id
}

/// An update without a score of its own: none is listed for its client, or
/// an earlier update of the batch has used it.
pub open spec fn is_unscored(batch: Seq<Delta>, scores: Seq<(Seq<char>, Binary32)>) -> spec_fn(
    int,
) -> bool {
    |i: int| score_of(scores, batch[i].client_id) is None || seen_before(batch, i)
}

/// The lowest number.
pub open spec fn lowest64() -> Binary64 {
    Binary64 { bits: 0xfff0_0000_0000_0000 }
}

/// The score less a penalty on the size of the update; the lowest number
/// where that is not finite.
pub open spec fn suspicion(
    score: Binary32,
    rho: Binary32,
    weights: Seq<Binary32>,
    global: Seq<Binary32>,
) -> Binary64 {
    let s = score.as_binary64().minus(
        rho.as_binary64().times(distance_squared64(weights, global)),
    );
    if s.finite() {
        s
    } else {
        lowest64()
    }
}

/// Ranks of the candidates from the best score down.
pub open spec fn suspicion_ranks(
    batch: Seq<Delta>,
    m: Seq<Seq<Binary32>>,
    given: Scores,
    rho: Binary32,
) -> Seq<int> {
    Seq::new(
        batch.len(),
        |i: int|
            -1 - suspicion(
                score_of(given.scores, batch[i].client_id)->0,
                rho,
                m[i],
                given.global,
            ).total_rank(),
    )
}

/// The unweighted mean of all but the assumed hostile number of candidates,
/// the best first.
pub open spec fn zeno_round(
    fraction: Binary32,
    rho: Binary32,
    given: Scores,
    batch: Seq<Delta>,
    m: Seq<Seq<Binary32>>,
) -> Seq<Binary32> {
    let order = stable_order(suspicion_ranks(batch, m, given, rho));
    let survivors = order.take(batch.len() - assumed_byzantine(fraction, batch.len()));
    even_mean(pool_of(m, survivors), m[0].len())
}

/// The result of a fit batch under a round's scores.
pub open spec fn zeno_scored(
    fraction: Binary32,
    rho: Binary32,
    given: Scores,
    batch: Seq<Delta>,
    m: Seq<Seq<Binary32>>,
) -> Result<Seq<Binary32>, Rejection> {
    let unscored = first_where(batch.len(), is_unscored(batch, given.scores));
    if given.global.len() != m[0].len() {
        Err(
            Rejection::CandidateScoresDimension { expected: m[0].len(), got: given.global.len() },
        )
    } else if unscored < batch.len() {
        Err(Rejection::UnscoredClient { client_id: batch[unscored as int].client_id })
    } else {
        Ok(zeno_round(fraction, rho, given, batch, m))
    }
}

/// Zeno. Scores serve one fit batch and are gone after it.
pub struct ZenoAggregator {
    /// The assumed fraction of hostile updates.
    pub byzantine_fraction: Binary32,
    /// How hard the size of an update is penalized.
    pub rho: Binary32,
    /// This round's scores, until they are used.
    pub injected: Option<CandidateScores>,
}

impl ZenoAggregator {
    /// An aggregator without scores.
    pub fn new(byzantine_fraction: Binary32, rho: Binary32) -> (r: ZenoAggregator)
        ensures
            r.byzantine_fraction == byzantine_fraction,
            r.rho == rho,
            r.injected is None,
    {
        ZenoAggregator { byzantine_fraction, rho, injected: None }
    }

    /// Supplies the round's scores.
    pub fn set_candidate_scores(&mut self, scores: CandidateScores)
        ensures
            final(self).injected == Some(scores),
            final(self).byzantine_fraction == old(self).byzantine_fraction,
            final(self).rho == old(self).rho,
    {
        self.injected = Some(scores);
    }
}

fn find_score(scores: &Vec<(String, Binary32)>, id: &String, Ghost(view): Ghost<
    Seq<(Seq<char>, Binary32)>,
>) -> (r: Option<Binary32>)
    requires
        view == Seq::new(scores.len() as nat, |i: int| (scores[i].0@, scores[i].1)),
    ensures
        r == score_of(view, id@),
{
    let mut k: usize = scores.len();
    proof {
        assert(view.take(k as int) =~= view);
    }
    while k > 0
        invariant
            k <= scores.len(),
            view == Seq::new(scores.len() as nat, |i: int| (scores[i].0@, scores[i].1)),
            score_of(view, id@) == score_of(view.take(k as int), id@),
        decreases k,
    {
        proof {
            assert(view.take(k as int).drop_last() =~= view.take(k - 1));
            assert(view.take(k as int).last() == view[k - 1]);
        }
        if scores[k - 1].0 == *id {
            return Some(scores[k - 1].1);
        }
        k = k - 1;
    }
    None
}

fn came_before(updates: &[ClientDelta], i: usize) -> (r: bool)
    requires
        i < updates.len(),
    ensures
        r == seen_before(batch_of(updates@), i as int),
{
    let ghost batch = batch_of(updates@);
    let mut j: usize = 0;
    while j < i
        invariant
            j <= i,
            i < updates.len(),
            batch == batch_of(updates@),
            forall|k: int| 0 <= k < j ==> (#[trigger] batch[k]).client_id != batch[i as int].client_id,
        decreases i - j,
    {
        if updates[j].client_id == updates[i].client_id {
            proof {
                assert(batch[j as int].client_id == batch[i as int].client_id);
            }
            return true;
        }
        j = j + 1;
    }
    false
}

fn zeno_mean(
    fraction: Binary32,
    rho: Binary32,
    given: &CandidateScores,
    updates: &[ClientDelta],
    m: &Vec<Vec<Binary32>>,
) -> (r: Result<Vec<Binary32>, AggregatorError>)
    requires
        updates.len() > 0,
        m.len() == updates.len(),
        is_matrix(rows(m@), rows(m@)[0].len()),
    ensures
        outcome(r) == zeno_scored(fraction, rho, given@, batch_of(updates@), rows(m@)),
{
    let ghost batch = batch_of(updates@);
    let ghost mm = rows(m@);
    let n: usize = updates.len();
    proof {
        assert(mm[0] == m[0]@);
    }
    let dim: usize = m[0].len();
    if given.global_weights.len() != dim {
        return Err(
            AggregatorError::CandidateScoresDimension {
                expected: dim,
                got: given.global_weights.len(),
            },
        );
    }
    let ghost ranked = suspicion_ranks(batch, mm, given@, rho);
    let mut ranks: Vec<i64> = Vec::with_capacity(n);
    let mut i: usize = 0;
    while i < n
        invariant
            i <= n,
            n == updates.len(),
            n == m.len(),
            batch == batch_of(updates@),
            mm == rows(m@),
            mm[0].len() == dim,
            is_matrix(mm, dim as nat),
            given@.global.len() == dim,
            ranked == suspicion_ranks(batch, mm, given@, rho),
            ranks.len() == i,
            forall|k: int| 0 <= k < i ==> #[trigger] ranks[k] == ranked[k],
            forall|k: int| 0 <= k < i ==> !(#[trigger] is_unscored(batch, given@.scores)(k)),
        decreases n - i,
    {
        proof {
            assert(batch[i as int] == updates[i as int]@);
            assert(mm[i as int] == m[i as int]@);
            assert(mm[i as int].len() == dim);
        }
        let found: Option<Binary32> = find_score(
            &given.scores,
            &updates[i].client_id,
            Ghost(given@.scores),
        );
        let reused: bool = came_before(updates, i);
        let score: Binary32 = match found {
            Some(s) if !reused => s,
            _ => {
                proof {
                    assert(is_unscored(batch, given@.scores)(i as int));
                    lemma_first_where(n as nat, is_unscored(batch, given@.scores), i as nat);
                }
                return Err(
                    AggregatorError::UnscoredClient { client_id: updates[i].client_id.clone() },
                );
            },
        };
        proof {
            assert(!is_unscored(batch, given@.scores)(i as int));
        }
        let size: Binary64 = squared_distance64(m[i].as_slice(), given.global_weights.as_slice());
        let s: Binary64 = score.to_binary64().sub(rho.to_binary64().mul(size));
        let kept: Binary64 = if s.is_finite() {
            s
        } else {
            Binary64 { bits: 0xfff0_0000_0000_0000 }
        };
        let key: i64 = kept.total_key();
        ranks.push(-1 - key);
        i = i + 1;
    }
    proof {
        lemma_first_where(n as nat, is_unscored(batch, given@.scores), n as nat);
        assert(as_ranks(ranks@) =~= ranked);
    }
    let drop: usize = byzantine_count(fraction, n);
    let mut order: Vec<usize> = order_by_rank(&ranks);
    let ghost full = order@;
    order.truncate(n - drop);
    proof {
        assert(order@ =~= full.take(n - drop));
        assert(indices_below(order@, n as nat)) by {
            assert forall|k: int| 0 <= k < order.len() implies #[trigger] order[k] < n by {
                assert(order[k] == full[k]);
            }
        }
    }
    let survivors: Vec<Vec<Binary32>> = gather_rows(m, &order);
    proof {
        assert forall|k: int| 0 <= k < survivors.len() implies (#[trigger] rows(
            survivors@,
        )[k]).len() == dim by {
            assert(order[k] < n);
            assert(mm[order[k] as int].len() == dim);
        }
    }
    Ok(mean_of_rows(&survivors, dim))
}

impl Aggregator for ZenoAggregator {
    type State = (Binary32, Binary32, Option<Scores>);

    open spec fn state(&self) -> (Binary32, Binary32, Option<Scores>) {
        (
            self.byzantine_fraction,
            self.rho,
            match self.injected {
                None => None,
                Some(s) => Some(s@),
            },
        )
    }

    open spec fn ready(s: (Binary32, Binary32, Option<Scores>)) -> bool {
        true
    }

    open spec fn step(s: (Binary32, Binary32, Option<Scores>), batch: Seq<Delta>) -> (
        Result<Seq<Binary32>, Rejection>,
        (Binary32, Binary32, Option<Scores>),
    ) {
        if batch.len() == 0 {
            (Err(Rejection::EmptyBatch), s)
        } else {
            match validated(batch) {
                Err(e) => (Err(e), s),
                Ok(m) => match s.2 {
                    None => (Err(Rejection::MissingCandidateScores), s),
                    Some(given) => (zeno_scored(s.0, s.1, given, batch, m), (s.0, s.1, None)),
                },
            }
        }
    }

    proof fn keeps_dimension(s: (Binary32, Binary32, Option<Scores>), batch: Seq<Delta>) {
        accepted_batches_are_fit(batch);
        if s.2 is Some {
            let m = validated(batch)->Ok_0;
            let order = stable_order(suspicion_ranks(batch, m, s.2->0, s.1));
            let survivors = order.take(batch.len() - assumed_byzantine(s.0, batch.len()));
            let pool = pool_of(m, survivors);
            lemma_weighted_rows_len(
                pool,
                Seq::new(pool.len(), |i: int| equal_share(pool.len())),
                m[0].len(),
                pool.len(),
            );
        }
    }

    /// It does.
    fn requires_candidate_scores(&self) -> (r: bool)
        ensures
            r,
    {
        true
    }

    fn aggregate(&mut self, updates: &[ClientDelta]) -> (r: Result<Vec<Binary32>, AggregatorError>) {
        if updates.len() == 0 {
            return Err(AggregatorError::EmptyBatch);
        }
        let m: Vec<Vec<Binary32>> = match decode_and_validate(updates) {
            Ok(m) => m,
            Err(e) => {
                return Err(e);
            },
        };
        proof {
            accepted_batches_are_fit(batch_of(updates@));
        }
        let r: Result<Vec<Binary32>, AggregatorError> = match &self.injected {
            None => {
                return Err(AggregatorError::MissingCandidateScores);
            },
            Some(given) => zeno_mean(self.byzantine_fraction, self.rho, given, updates, &m),
        };
        self.injected = None;
        r
    }
}

} // verus!
