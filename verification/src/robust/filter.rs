//! Picking the updates to trust, then combining only those.
use vstd::prelude::*;
use crate::aggregator::{model_dim, Aggregator};
use crate::delta::{batch_of, pick_updates, picked, ClientDelta, Delta};
use crate::error::{AggregatorError, Rejection};
use crate::float::binary32::Binary32;
use crate::weights::{accepted_batches_are_fit, lemma_picked_is_fit, validated};

verus! {

/// Which updates of a batch a filter trusts.
#[derive(Debug, Clone, PartialEq, Eq)]
pub struct SelectionResult {
    /// Indices into the batch that survived, in ascending order.
    pub selected_indices: Vec<usize>,
}

/// What a filter returned, as mathematical values.
pub open spec fn selection_of(r: Result<SelectionResult, AggregatorError>) -> Result<
    Seq<usize>,
    Rejection,
> {
    match r {
        Ok(s) => Ok(s.selected_indices@),
        Err(e) => Err(e@),
    }
}

/// Whether every index lies below `n`.
pub open spec fn indices_below(s: Seq<usize>, n: nat) -> bool {
    forall|k: int| 0 <= k < s.len() ==> #[trigger] s[k] < n
}

/// Whether indices come in ascending order, each once.
pub open spec fn ascending(s: Seq<usize>) -> bool {
    forall|a: int, b: int| 0 <= a < b < s.len() ==> #[trigger] s[a] < #[trigger] s[b]
}

/// Decides which of the updates that came back to trust.
pub trait UpdateFilter: Sized {
    /// Whether the filter can judge a batch of `n` updates.
    spec fn judges(&self, n: nat) -> bool;

    /// The trusted indices, or why there are none.
    spec fn selects(&self, batch: Seq<Delta>) -> Result<Seq<usize>, Rejection>;

    /// Only updates of the batch are trusted.
    proof fn selects_within(&self, batch: Seq<Delta>)
        requires
            self.judges(batch.len()),
            batch.len() <= usize::MAX,
        ensures
            self.selects(batch) is Ok ==> indices_below(self.selects(batch)->Ok_0, batch.len()),
            self.selects(batch) is Ok ==> ascending(self.selects(batch)->Ok_0),
    ;

    /// Chooses which updates survive.
    fn filter(&self, updates: &[ClientDelta]) -> (r: Result<SelectionResult, AggregatorError>)
        requires
            self.judges(updates.len() as nat),
        ensures
            selection_of(r) == self.selects(batch_of(updates@)),
            r is Ok ==> indices_below(r->Ok_0.selected_indices@, updates.len() as nat),
            r is Ok ==> ascending(r->Ok_0.selected_indices@),
    ;
}

/// There are no more ascending indices below `n` than `n`.
pub proof fn lemma_ascending_len(s: Seq<usize>, n: nat)
    requires
        ascending(s),
        indices_below(s, n),
    ensures
        s.len() <= n,
    decreases s.len(),
{
    if s.len() > 0 {
        let last = s.last();
        assert(s[s.len() - 1] < n);
        let front = s.drop_last();
        assert forall|k: int| 0 <= k < front.len() implies #[trigger] front[k] < last by {
            assert(s[k] < s[s.len() - 1]);
        }
        lemma_ascending_len(front, last as nat);
    }
}

/// The indices below `n` that `keep` holds of, in ascending order.
pub open spec fn kept(n: nat, keep: spec_fn(int) -> bool) -> Seq<usize>
    decreases n,
{
    if n == 0 {
        Seq::empty()
    } else {
        let before = kept((n - 1) as nat, keep);
        if keep(n - 1) {
            before.push((n - 1) as usize)
        } else {
            before
        }
    }
}

pub proof fn lemma_kept(n: nat, keep: spec_fn(int) -> bool)
    requires
        n <= usize::MAX,
    ensures
        indices_below(kept(n, keep), n),
        ascending(kept(n, keep)),
        kept(n, keep).len() <= n,
    decreases n,
{
    if n > 0 {
        lemma_kept((n - 1) as nat, keep);
    }
}

pub proof fn lemma_kept_same(n: nat, a: spec_fn(int) -> bool, b: spec_fn(int) -> bool)
    requires
        forall|i: int| 0 <= i < n ==> #[trigger] a(i) == b(i),
    ensures
        kept(n, a) == kept(n, b),
    decreases n,
{
    if n > 0 {
        lemma_kept_same((n - 1) as nat, a, b);
    }
}

/// Lists the indices whose mark is set.
pub fn collect_marked(marks: &Vec<bool>) -> (r: Vec<usize>)
    ensures
        r@ == kept(marks.len() as nat, |i: int| marks[i]),
        indices_below(r@, marks.len() as nat),
        ascending(r@),
{
    let ghost keep = |i: int| marks[i];
    let mut out: Vec<usize> = Vec::new();
    let mut i: usize = 0;
    while i < marks.len()
        invariant
            i <= marks.len(),
            keep == (|k: int| marks[k]),
            out@ == kept(i as nat, keep),
        decreases marks.len() - i,
    {
        if marks[i] {
            out.push(i);
        }
        i = i + 1;
    }
    proof {
        lemma_kept(marks.len() as nat, keep);
    }
    out
}

/// Lists, in ascending order, the indices below `n` that `indices` contains.
pub fn in_ascending_order(indices: &Vec<usize>, n: usize) -> (r: Vec<usize>)
    requires
        indices_below(indices@, n as nat),
    ensures
        r@ == kept(n as nat, |i: int| indices@.contains(i as usize)),
        indices_below(r@, n as nat),
        ascending(r@),
{
    let mut marks: Vec<bool> = Vec::with_capacity(n);
    let mut i: usize = 0;
    while i < n
        invariant
            i <= n,
            marks.len() == i,
            forall|k: int| 0 <= k < i ==> !(#[trigger] marks[k]),
        decreases n - i,
    {
        marks.push(false);
        i = i + 1;
    }
    let mut k: usize = 0;
    while k < indices.len()
        invariant
            k <= indices.len(),
            marks.len() == n,
            indices_below(indices@, n as nat),
            forall|j: int|
                0 <= j < n ==> #[trigger] marks[j] == indices@.take(k as int).contains(j as usize),
        decreases indices.len() - k,
    {
        let ghost before = marks@;
        let at: usize = indices[k];
        marks.set(at, true);
        proof {
            let t0 = indices@.take(k as int);
            let t1 = indices@.take(k + 1);
            assert forall|j: int| 0 <= j < n implies #[trigger] marks[j] == t1.contains(j as usize) by {
                if j == at {
                    assert(t1[k as int] == at);
                } else {
                    if t0.contains(j as usize) {
                        let a = choose|a: int| 0 <= a < t0.len() && t0[a] == j as usize;
                        assert(t1[a] == j as usize);
                    }
                    if t1.contains(j as usize) {
                        let a = choose|a: int| 0 <= a < t1.len() && t1[a] == j as usize;
                        assert(a < k);
                        assert(t0[a] == j as usize);
                    }
                }
            }
        }
        k = k + 1;
    }
    proof {
        assert(indices@.take(k as int) =~= indices@);
        lemma_kept_same(
            n as nat,
            |i: int| marks[i],
            |i: int| indices@.contains(i as usize),
        );
    }
    collect_marked(&marks)
}

/// Lists the indices below `n`.
pub fn all_indices(n: usize) -> (r: Vec<usize>)
    ensures
        r@ == every_index(n as nat),
        indices_below(r@, n as nat),
        ascending(r@),
{
    let mut out: Vec<usize> = Vec::with_capacity(n);
    let mut i: usize = 0;
    while i < n
        invariant
            i <= n,
            out@ == every_index(i as nat),
        decreases n - i,
    {
        out.push(i);
        proof {
            assert(out@ =~= every_index((i + 1) as nat));
        }
        i = i + 1;
    }
    out
}

/// The indices below `n`.
pub open spec fn every_index(n: nat) -> Seq<usize> {
    Seq::new(n, |i: int| i as usize)
}

/// How many of `n` updates are assumed hostile: at most all but one.
pub open spec fn assumed_byzantine(fraction: Binary32, n: nat) -> nat {
    let f = fraction.times(Binary32::whole(n)).floor_nat();
    let most: nat = if n == 0 { 0 } else { (n - 1) as nat };
    if f < most {
        f
    } else {
        most
    }
}

/// How many of `n` updates are assumed hostile: at most all but one.
pub fn byzantine_count(byzantine_fraction: Binary32, n: usize) -> (r: usize)
    ensures
        r as nat == assumed_byzantine(byzantine_fraction, n as nat),
        n > 0 ==> r < n,
        n == 0 ==> r == 0,
{
    let f: u64 = byzantine_fraction.mul(Binary32::from_u64(n as u64)).floor_u64();
    let most: usize = if n == 0 {
        0
    } else {
        n - 1
    };
    if f < most as u64 {
        f as usize
    } else {
        most
    }
}

/// What a filter followed by a combiner returns.
#[verifier::opaque]
pub open spec fn filtered_step<F: UpdateFilter, C: Aggregator>(
    s: (F, C::State),
    batch: Seq<Delta>,
) -> (Result<Seq<Binary32>, Rejection>, (F, C::State)) {
    if batch.len() == 0 {
        (Err(Rejection::EmptyBatch), s)
    } else {
        match s.0.selects(batch) {
            Err(e) => (Err(e), s),
            Ok(indices) => if indices.len() == 0 {
                (Err(Rejection::EmptyBatch), s)
            } else {
                let (r, after) = C::step(s.1, picked(batch, indices));
                (r, (s.0, after))
            },
        }
    }
}

/// Filters a batch down to the updates the filter trusts, then hands those to
/// the combiner.
pub struct FilteredAggregator<F: UpdateFilter, C: Aggregator> {
    pub filter: F,
    pub combiner: C,
}

impl<F: UpdateFilter, C: Aggregator> FilteredAggregator<F, C> {
    /// Pairs a filter with the method that combines whatever survives it.
    pub fn new(filter: F, combiner: C) -> (r: Self)
        ensures
            r.filter == filter,
            r.combiner == combiner,
    {
        FilteredAggregator { filter, combiner }
    }
}

impl<F: UpdateFilter, C: Aggregator> Aggregator for FilteredAggregator<F, C> {
    type State = (F, C::State);

    open spec fn state(&self) -> (F, C::State) {
        (self.filter, self.combiner.state())
    }

    open spec fn ready(s: (F, C::State)) -> bool {
        &&& forall|n: nat| n > 0 ==> #[trigger] s.0.judges(n)
        &&& C::ready(s.1)
    }

    open spec fn step(s: (F, C::State), batch: Seq<Delta>) -> (
        Result<Seq<Binary32>, Rejection>,
        (F, C::State),
    ) {
        filtered_step::<F, C>(s, batch)
    }

    proof fn keeps_dimension(s: (F, C::State), batch: Seq<Delta>) {
        reveal(filtered_step);
        if batch.len() <= usize::MAX {
            assert(s.0.judges(batch.len()));
            s.0.selects_within(batch);
            if s.0.selects(batch) is Ok && s.0.selects(batch)->Ok_0.len() > 0 {
                let indices = s.0.selects(batch)->Ok_0;
                lemma_picked_is_fit(batch, indices);
                lemma_ascending_len(indices, batch.len());
                accepted_batches_are_fit(batch);
                C::keeps_dimension(s.1, picked(batch, indices));
                assert(indices[0] < batch.len());
                assert(validated(batch)->Ok_0[indices[0] as int].len() == model_dim(batch));
            }
        }
    }

    fn aggregate(&mut self, updates: &[ClientDelta]) -> (r: Result<Vec<Binary32>, AggregatorError>) {
        proof {
            reveal(filtered_step);
        }
        if updates.len() == 0 {
            return Err(AggregatorError::EmptyBatch);
        }
        proof {
            assert(self.state().0.judges(updates.len() as nat));
        }
        let selection: SelectionResult = match self.filter.filter(updates) {
            Ok(s) => s,
            Err(e) => {
                return Err(e);
            },
        };
        if selection.selected_indices.len() == 0 {
            return Err(AggregatorError::EmptyBatch);
        }
        let selected: Vec<ClientDelta> = pick_updates(updates, &selection.selected_indices);
        self.combiner.aggregate(selected.as_slice())
    }
}

} // verus!
