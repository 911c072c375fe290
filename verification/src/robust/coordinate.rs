//! Methods that combine one coordinate at a time across every client.
use vstd::prelude::*;
use crate::aggregator::Aggregator;
use crate::delta::{batch_of, ClientDelta, Delta};
use crate::error::{AggregatorError, Rejection};
use crate::float::binary32::Binary32;
use crate::linear::{empty_sum32, sum32, total32};
use crate::order::{ranks32, sort32, sorted32, stable_order, stable_order_is_a_sorted_permutation};
use crate::robust::filter::{assumed_byzantine, byzantine_count};
use crate::weights::{accepted_batches_are_fit, all_finite, decode_and_validate, is_matrix, rows, validated};

verus! {

/// Reduces every client's value at one coordinate to one number.
pub trait CoordinateWiseRobustStatistic: Sized {
    /// Whether the statistic is defined for `n` values.
    spec fn takes(&self, n: nat) -> bool;

    /// The statistic of `values`.
    spec fn combines(&self, values: Seq<Binary32>) -> Binary32;

    /// The statistic of one coordinate's values.
    fn combine(&self, values_at_one_coordinate: &[Binary32]) -> (r: Binary32)
        requires
            self.takes(values_at_one_coordinate.len() as nat),
        ensures
            r == self.combines(values_at_one_coordinate@),
    ;
}

/// What every row holds at coordinate `k`.
pub open spec fn column(m: Seq<Seq<Binary32>>, k: int) -> Seq<Binary32> {
    Seq::new(m.len(), |i: int| m[i][k])
}

/// A batch combined coordinate by coordinate.
#[verifier::opaque]
pub open spec fn combined_columns<S: CoordinateWiseRobustStatistic>(
    statistic: S,
    batch: Seq<Delta>,
) -> Result<Seq<Binary32>, Rejection> {
    if batch.len() == 0 {
        Err(Rejection::EmptyBatch)
    } else {
        match validated(batch) {
            Err(e) => Err(e),
            Ok(m) => Ok(Seq::new(m[0].len(), |k: int| statistic.combines(column(m, k)))),
        }
    }
}

/// Applies a statistic to each coordinate of a batch; sample counts play no
/// part.
pub struct CoordinateWiseAggregator<S: CoordinateWiseRobustStatistic> {
    pub statistic: S,
}

impl<S: CoordinateWiseRobustStatistic> CoordinateWiseAggregator<S> {
    /// Applies `statistic` coordinate by coordinate.
    pub fn new(statistic: S) -> (r: Self)
        ensures
            r.statistic == statistic,
    {
        CoordinateWiseAggregator { statistic }
    }
}

impl<S: CoordinateWiseRobustStatistic> Aggregator for CoordinateWiseAggregator<S> {
    type State = S;

    open spec fn state(&self) -> S {
        self.statistic
    }

    open spec fn ready(s: S) -> bool {
        forall|n: nat| n > 0 ==> #[trigger] s.takes(n)
    }

    open spec fn step(s: S, batch: Seq<Delta>) -> (Result<Seq<Binary32>, Rejection>, S) {
        (combined_columns(s, batch), s)
    }

    proof fn keeps_dimension(s: S, batch: Seq<Delta>) {
        reveal(combined_columns);
        accepted_batches_are_fit(batch);
    }

    fn aggregate(&mut self, updates: &[ClientDelta]) -> (r: Result<Vec<Binary32>, AggregatorError>) {
        proof {
            reveal(combined_columns);
        }
        let ghost batch = batch_of(updates@);
        if updates.len() == 0 {
            return Err(AggregatorError::EmptyBatch);
        }
        let m: Vec<Vec<Binary32>> = match decode_and_validate(updates) {
            Ok(m) => m,
            Err(e) => {
                return Err(e);
            },
        };
        let ghost mm = rows(m@);
        proof {
            accepted_batches_are_fit(batch);
            assert(mm[0] == m[0]@);
        }
        let dim: usize = m[0].len();
        let mut result: Vec<Binary32> = Vec::with_capacity(dim);
        let mut k: usize = 0;
        while k < dim
            invariant
                k <= dim,
                mm == rows(m@),
                m.len() > 0,
                is_matrix(mm, dim as nat),
                forall|n: nat| n > 0 ==> #[trigger] self.statistic.takes(n),
                *self == *old(self),
                result.len() == k,
                forall|j: int|
                    0 <= j < k ==> #[trigger] result[j] == self.statistic.combines(column(mm, j)),
            decreases dim - k,
        {
            let mut values: Vec<Binary32> = Vec::with_capacity(m.len());
            let mut i: usize = 0;
            while i < m.len()
                invariant
                    i <= m.len(),
                    k < dim,
                    mm == rows(m@),
                    is_matrix(mm, dim as nat),
                    values.len() == i,
                    forall|j: int| 0 <= j < i ==> #[trigger] values[j] == mm[j][k as int],
                decreases m.len() - i,
            {
                proof {
                    assert(mm[i as int].len() == dim);
                }
                let v: Binary32 = m[i][k];
                values.push(v);
                i = i + 1;
            }
            proof {
                assert(values@ =~= column(mm, k as int));
                assert(self.statistic.takes(values.len() as nat));
            }
            result.push(self.statistic.combine(values.as_slice()));
            k = k + 1;
        }
        proof {
            assert(result@ =~= Seq::new(
                mm[0].len(),
                |j: int| old(self).statistic.combines(column(mm, j)),
            ));
        }
        Ok(result)
    }
}

/// Each of `values` over their number.
pub open spec fn mean_parts(values: Seq<Binary32>) -> Seq<Binary32> {
    Seq::new(values.len(), |i: int| values[i].over(Binary32::whole(values.len())))
}

/// The mean of `values`: their sum over their number. Where the sum of finite
/// values leaves the finite numbers, each is divided before it is added, and
/// what rounding adds beyond the largest number is held there.
pub open spec fn plain_mean(values: Seq<Binary32>) -> Binary32 {
    let mean = sum32(values).over(Binary32::whole(values.len()));
    if mean.finite() || values.len() == 0 || !all_finite(values) {
        mean
    } else {
        sum32(mean_parts(values)).held()
    }
}

fn are_finite(values: &[Binary32]) -> (r: bool)
    ensures
        r == all_finite(values@),
{
    let mut i: usize = 0;
    while i < values.len()
        invariant
            i <= values.len(),
            forall|k: int| 0 <= k < i ==> (#[trigger] values@[k]).finite(),
        decreases values.len() - i,
    {
        if !values[i].is_finite() {
            assert(!values@[i as int].finite());
            return false;
        }
        i = i + 1;
    }
    true
}

/// The mean of `values`.
pub fn mean_of(values: &[Binary32]) -> (r: Binary32)
    ensures
        r == plain_mean(values@),
        values.len() > 0 && all_finite(values@) ==> r.finite(),
{
    let count: Binary32 = Binary32::from_u64(values.len() as u64);
    proof {
        if values.len() > 0 && all_finite(values@) {
            lemma_plain_mean_finite(values@);
        }
    }
    let mean: Binary32 = total32(values).div(count);
    if mean.is_finite() || values.len() == 0 || !are_finite(values) {
        return mean;
    }
    let mut parts: Vec<Binary32> = Vec::with_capacity(values.len());
    let mut i: usize = 0;
    while i < values.len()
        invariant
            i <= values.len(),
            count == Binary32::whole(values.len() as nat),
            parts.len() == i,
            forall|k: int| 0 <= k < i ==> #[trigger] parts[k] == values[k].over(count),
        decreases values.len() - i,
    {
        parts.push(values[i].div(count));
        i = i + 1;
    }
    proof {
        assert(parts@ =~= mean_parts(values@));
    }
    total32(parts.as_slice()).hold()
}

/// The sum of finite numbers is a number.
pub proof fn lemma_sum_is_number(s: Seq<Binary32>)
    requires
        all_finite(s),
    ensures
        !sum32(s).nan(),
    decreases s.len(),
{
    if s.len() == 0 {
        assert(Binary32::nothing().negated() == empty_sum32()) by {
            reveal(Binary32::negated);
            assert(0nat % 0x8000_0000nat == 0);
        }
        empty_sum32().zeros();
        empty_sum32().finite_is_a_number();
    } else {
        let rest = s.drop_last();
        assert forall|j: int| 0 <= j < rest.len() implies (#[trigger] rest[j]).finite() by {
            assert(s[j].finite());
        }
        lemma_sum_is_number(rest);
        assert(s[s.len() - 1].finite());
        sum32(rest).running_sums_are_numbers(s.last());
    }
}

/// The mean of finite numbers is finite.
pub proof fn lemma_plain_mean_finite(values: Seq<Binary32>)
    requires
        0 < values.len() <= u64::MAX,
        all_finite(values),
    ensures
        plain_mean(values).finite(),
{
    let count = Binary32::whole(values.len());
    Binary32::words_are_finite(values.len());
    let parts = mean_parts(values);
    assert forall|j: int| 0 <= j < parts.len() implies (#[trigger] parts[j]).finite() by {
        assert(values[j].finite());
        values[j].over_at_least_one(count);
    }
    lemma_sum_is_number(parts);
    sum32(parts).held_is_finite();
}

/// How many values are trimmed from each end of `n`.
pub open spec fn trim_count(fraction: Binary32, n: nat) -> nat {
    let f = assumed_byzantine(fraction, n);
    let most: nat = if n == 0 { 0 } else { ((n - 1) / 2) as nat };
    if f < most {
        f
    } else {
        most
    }
}

/// Coordinate-wise trimmed mean: sorts the values, drops as many from each
/// end as updates are assumed hostile, and averages what is left.
#[derive(Debug, Clone, Copy)]
pub struct TrimmedMeanStatistic {
    /// The assumed fraction of hostile updates.
    pub byzantine_fraction: Binary32,
}

impl CoordinateWiseRobustStatistic for TrimmedMeanStatistic {
    open spec fn takes(&self, n: nat) -> bool {
        true
    }

    open spec fn combines(&self, values: Seq<Binary32>) -> Binary32 {
        let n = values.len();
        let trim = trim_count(self.byzantine_fraction, n);
        plain_mean(sorted32(values).subrange(trim as int, n - trim))
    }

    fn combine(&self, values: &[Binary32]) -> (r: Binary32)
        ensures
            values.len() > 0 && all_finite(values@) ==> r.finite(),
    {
        proof {
            if values.len() > 0 && all_finite(values@) {
                lemma_trimmed_finite(*self, values@);
            }
        }
        let n: usize = values.len();
        let f: usize = byzantine_count(self.byzantine_fraction, n);
        let most: usize = if n == 0 {
            0
        } else {
            (n - 1) / 2
        };
        let trim: usize = if f < most {
            f
        } else {
            most
        };
        let sorted: Vec<Binary32> = sort32(values);
        let mut middle: Vec<Binary32> = Vec::with_capacity(n - 2 * trim);
        let mut i: usize = trim;
        while i < n - trim
            invariant
                trim <= i <= n - trim,
                2 * trim <= n,
                sorted.len() == n,
                middle@ == sorted@.subrange(trim as int, i as int),
            decreases n - i,
        {
            middle.push(sorted[i]);
            proof {
                assert(middle@ =~= sorted@.subrange(trim as int, i + 1));
            }
            i = i + 1;
        }
        mean_of(middle.as_slice())
    }
}

/// The trimmed mean of finite numbers is finite.
pub proof fn lemma_trimmed_finite(statistic: TrimmedMeanStatistic, values: Seq<Binary32>)
    requires
        0 < values.len() <= usize::MAX,
        all_finite(values),
    ensures
        statistic.combines(values).finite(),
{
    let n = values.len();
    lemma_sorted_all_finite(values);
    let s = sorted32(values);
    let trim = trim_count(statistic.byzantine_fraction, n);
    let middle = s.subrange(trim as int, n - trim);
    assert forall|j: int| 0 <= j < middle.len() implies (#[trigger] middle[j]).finite() by {
        assert(s[trim + j].finite());
    }
    lemma_plain_mean_finite(middle);
}

/// The number two.
pub open spec fn two() -> Binary32 {
    Binary32 { bits: 0x4000_0000 }
}

/// The number halfway between two numbers. Where their sum leaves the finite
/// numbers, each is halved before they are added.
pub open spec fn halfway(a: Binary32, b: Binary32) -> Binary32 {
    let sum = a.plus(b);
    if sum.finite() {
        sum.over(two())
    } else {
        a.over(two()).plus(b.over(two()))
    }
}

/// The middle number of a sorted list, or the mean of the middle two.
pub open spec fn middle_of(sorted: Seq<Binary32>) -> Binary32 {
    let n = sorted.len();
    if n % 2 == 1 {
        sorted[n as int / 2]
    } else {
        halfway(sorted[n as int / 2 - 1], sorted[n as int / 2])
    }
}

/// The median of finite numbers is finite.
pub proof fn lemma_middle_finite(sorted: Seq<Binary32>)
    requires
        sorted.len() > 0,
        all_finite(sorted),
    ensures
        middle_of(sorted).finite(),
{
    let n = sorted.len();
    assert(sorted[n as int / 2].finite());
    if n % 2 == 0 {
        assert(sorted[n as int / 2 - 1].finite());
        let (a, b) = (sorted[n as int / 2 - 1], sorted[n as int / 2]);
        a.halves_add_up(b);
        two().unsigned_patterns();
        Binary32::unit().unsigned_patterns();
        if a.plus(b).finite() {
            a.plus(b).over_at_least_one(two());
        }
    }
}

/// Sorting finite numbers gives finite numbers.
pub proof fn lemma_sorted_all_finite(values: Seq<Binary32>)
    requires
        values.len() <= usize::MAX,
        all_finite(values),
    ensures
        sorted32(values).len() == values.len(),
        all_finite(sorted32(values)),
{
    stable_order_is_a_sorted_permutation(ranks32(values));
    let p = stable_order(ranks32(values));
    assert forall|k: int| 0 <= k < sorted32(values).len() implies (
    #[trigger] sorted32(values)[k]).finite() by {
        assert(p[k] < values.len());
        assert(values[p[k] as int].finite());
    }
}

/// The median of numbers.
fn median_of(values: &[Binary32]) -> (r: Binary32)
    requires
        values.len() > 0,
    ensures
        r == middle_of(sorted32(values@)),
        all_finite(values@) ==> r.finite(),
{
    let sorted: Vec<Binary32> = sort32(values);
    let n: usize = sorted.len();
    proof {
        if all_finite(values@) {
            lemma_sorted_all_finite(values@);
            lemma_middle_finite(sorted@);
        }
    }
    if n % 2 == 1 {
        sorted[n / 2]
    } else {
        let (a, b): (Binary32, Binary32) = (sorted[n / 2 - 1], sorted[n / 2]);
        let half: Binary32 = Binary32 { bits: 0x4000_0000 };
        let sum: Binary32 = a.add(b);
        if sum.is_finite() {
            sum.div(half)
        } else {
            a.div(half).add(b.div(half))
        }
    }
}

/// Coordinate-wise median.
#[derive(Debug, Clone, Copy)]
pub struct MedianStatistic;

impl CoordinateWiseRobustStatistic for MedianStatistic {
    open spec fn takes(&self, n: nat) -> bool {
        n > 0
    }

    open spec fn combines(&self, values: Seq<Binary32>) -> Binary32 {
        middle_of(sorted32(values))
    }

    fn combine(&self, values: &[Binary32]) -> (r: Binary32)
        ensures
            all_finite(values@) ==> r.finite(),
    {
        median_of(values)
    }
}

/// The means of consecutive groups of `size` values, the last group taking
/// what is left.
pub open spec fn group_means(values: Seq<Binary32>, size: nat) -> Seq<Binary32>
    decreases values.len(),
{
    if values.len() == 0 {
        Seq::empty()
    } else if size == 0 || values.len() <= size {
        seq![plain_mean(values)]
    } else {
        seq![plain_mean(values.take(size as int))] + group_means(values.skip(size as int), size)
    }
}

/// The means of groups of finite numbers are finite, at least one and no more
/// than there are numbers.
pub proof fn lemma_group_means(values: Seq<Binary32>, size: nat)
    requires
        0 < values.len() <= usize::MAX,
        size > 0,
        all_finite(values),
    ensures
        0 < group_means(values, size).len() <= values.len(),
        all_finite(group_means(values, size)),
    decreases values.len(),
{
    let n = values.len();
    let first = if n <= size {
        values
    } else {
        values.take(size as int)
    };
    assert forall|j: int| 0 <= j < first.len() implies (#[trigger] first[j]).finite() by {
        assert(values[j].finite());
    }
    lemma_plain_mean_finite(first);
    if n > size {
        let rest = values.skip(size as int);
        assert forall|j: int| 0 <= j < rest.len() implies (#[trigger] rest[j]).finite() by {
            assert(values[size + j].finite());
        }
        lemma_group_means(rest, size);
        let means = group_means(values, size);
        assert forall|j: int| 0 <= j < means.len() implies (#[trigger] means[j]).finite() by {
            if j > 0 {
                assert(means[j] == group_means(rest, size)[j - 1]);
            }
        }
    }
}

/// Coordinate-wise median of means: averages fixed groups of clients, then
/// takes the median of those means.
#[derive(Debug, Clone, Copy)]
pub struct MedianOfMeansStatistic {
    /// How many clients make a group; none counts as one.
    pub group_size: usize,
}

impl Default for MedianOfMeansStatistic {
    fn default() -> (r: Self)
        ensures
            r.group_size == 2,
    {
        MedianOfMeansStatistic { group_size: 2 }
    }
}

impl CoordinateWiseRobustStatistic for MedianOfMeansStatistic {
    open spec fn takes(&self, n: nat) -> bool {
        n > 0
    }

    open spec fn combines(&self, values: Seq<Binary32>) -> Binary32 {
        let size: nat = if self.group_size == 0 { 1 } else { self.group_size as nat };
        middle_of(sorted32(group_means(values, size)))
    }

    fn combine(&self, values: &[Binary32]) -> (r: Binary32)
        ensures
            all_finite(values@) ==> r.finite(),
    {
        proof {
            if all_finite(values@) {
                lemma_group_means(
                    values@,
                    if self.group_size == 0 {
                        1
                    } else {
                        self.group_size as nat
                    },
                );
            }
        }
        let size: usize = if self.group_size == 0 {
            1
        } else {
            self.group_size
        };
        let n: usize = values.len();
        let ghost goal = group_means(values@, size as nat);
        let mut means: Vec<Binary32> = Vec::new();
        let mut start: usize = 0;
        proof {
            assert(values@.skip(0) =~= values@);
            assert(means@ + goal =~= goal);
        }
        while start < n
            invariant
                start <= n,
                n == values.len(),
                size > 0,
                goal == means@ + group_means(values@.skip(start as int), size as nat),
                start > 0 ==> means.len() > 0,
            decreases n - start,
        {
            let end: usize = if n - start > size {
                start + size
            } else {
                n
            };
            let mut group: Vec<Binary32> = Vec::with_capacity(end - start);
            let mut i: usize = start;
            while i < end
                invariant
                    start <= i <= end,
                    end <= n,
                    n == values.len(),
                    group@ == values@.subrange(start as int, i as int),
                decreases end - i,
            {
                group.push(values[i]);
                proof {
                    assert(group@ =~= values@.subrange(start as int, i + 1));
                }
                i = i + 1;
            }
            let ghost rest = values@.skip(start as int);
            let ghost before = means@;
            means.push(mean_of(group.as_slice()));
            proof {
                if n - start > size {
                    assert(rest.take(size as int) =~= group@);
                    assert(rest.skip(size as int) =~= values@.skip(end as int));
                } else {
                    assert(rest =~= group@);
                    assert(values@.skip(end as int) =~= Seq::empty());
                }
                assert(before + group_means(rest, size as nat) =~= means@ + group_means(
                    values@.skip(end as int),
                    size as nat,
                ));
            }
            start = end;
        }
        proof {
            assert(values@.skip(start as int) =~= Seq::empty());
            assert(means@ + Seq::<Binary32>::empty() =~= means@);
        }
        median_of(means.as_slice())
    }
}

} // verus!
