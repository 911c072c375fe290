//! What the filters that look at nearest neighbours promise.
//!
//! Nothing here speaks of scores. An update is compared by the distances to
//! any other updates one may choose.
use vstd::prelude::*;
use crate::delta::Delta;
use crate::float::binary32::Binary32;
use crate::laws::averaging::{lemma_empty_sum, lemma_number};
use crate::laws::finite::{is_length, lemma_distance_is_number, lemma_lengths_add_up};
use crate::laws::selection::lemma_kept_contains;
use crate::linear::{distance32, empty_sum32, squared_differences, sum32};
use crate::order::{first_lowest, ranks32, sorted32, stable_order, stable_order_is_a_sorted_permutation};
use crate::robust::filter::{assumed_byzantine, UpdateFilter};
use crate::robust::krum::{at_most_first, krum_score, krum_scores_of, squares_to_others, KrumFilter, MultiKrumFilter};
use crate::weights::{accepted_batches_are_fit, all_finite, validated};

verus! {

/// The squared distance of rows `i` and `j`.
pub open spec fn apart(m: Seq<Seq<Binary32>>, i: int, j: int) -> Binary32 {
    distance32(m[i], m[j]).times(distance32(m[i], m[j]))
}

/// Whether `chosen` names rows of `m` other than `i`, none of them twice, from
/// the nearest on.
pub open spec fn are_others(m: Seq<Seq<Binary32>>, i: int, chosen: Seq<int>) -> bool {
    &&& chosen.no_duplicates()
    &&& forall|a: int| 0 <= a < chosen.len() ==> 0 <= #[trigger] chosen[a] < m.len() && chosen[a] != i
    &&& forall|a: int, b: int|
        0 <= a <= b < chosen.len() ==> apart(m, i, #[trigger] chosen[a]).rank() <= apart(
            m,
            i,
            #[trigger] chosen[b],
        ).rank()
}

/// The squared distances of row `i` to the chosen ones, added up.
pub open spec fn farness(m: Seq<Seq<Binary32>>, i: int, chosen: Seq<int>) -> Binary32 {
    sum32(Seq::new(chosen.len(), |a: int| apart(m, i, chosen[a])))
}

/// How many neighbours Krum looks at: all the updates but the assumed hostile
/// ones and two more, and at least one.
pub open spec fn company(fraction: Binary32, n: nat) -> nat {
    if n > assumed_byzantine(fraction, n) + 2 {
        (n - assumed_byzantine(fraction, n) - 2) as nat
    } else {
        1
    }
}

/// Whether the rows of `m` are finite and of one dimension.
pub open spec fn are_rows(m: Seq<Seq<Binary32>>) -> bool {
    &&& forall|i: int| 0 <= i < m.len() ==> all_finite(#[trigger] m[i])
    &&& forall|i: int, j: int|
        0 <= i < m.len() && 0 <= j < m.len() ==> (#[trigger] m[i]).len() == (#[trigger] m[j]).len()
}

/// Distances are the same from both ends.
pub proof fn distances_are_mutual(v: Seq<Binary32>, w: Seq<Binary32>)
    requires
        v.len() == w.len(),
        all_finite(v),
        all_finite(w),
    ensures
        distance32(v, w) == distance32(w, v),
{
    let (a, b) = (squared_differences(v, w), squared_differences(w, v));
    assert forall|k: int| 0 <= k < a.len() implies a[k] == b[k] by {
        assert(v[k].finite() && w[k].finite());
        v[k].squared_gaps_are_symmetric(w[k]);
    }
    assert(a =~= b);
}

/// The row that place `t` among the others of row `i` stands for.
spec fn other(i: int, t: int) -> int {
    if t < i {
        t
    } else {
        t + 1
    }
}

/// The squares a score is made of are those of the other rows.
proof fn lemma_squares(m: Seq<Seq<Binary32>>, i: int)
    requires
        are_rows(m),
        0 <= i < m.len(),
    ensures
        squares_to_others(m, i).len() == m.len() - 1,
        forall|t: int|
            0 <= t < m.len() - 1 ==> #[trigger] squares_to_others(m, i)[t] == apart(
                m,
                i,
                other(i, t),
            ),
        forall|t: int|
            0 <= t < m.len() - 1 ==> is_length(#[trigger] squares_to_others(m, i)[t]),
{
    let s = squares_to_others(m, i);
    assert forall|t: int| 0 <= t < m.len() - 1 implies #[trigger] s[t] == apart(m, i, other(i, t))
        && is_length(s[t]) by {
        let j = other(i, t);
        assert(all_finite(m[i]) && all_finite(m[j]));
        assert(m[i].len() == m[j].len());
        distances_are_mutual(m[i], m[j]);
        lemma_distance_is_number(m[i], m[j]);
        distance32(m[i], m[j]).square_is_not_negative();
    }
}

/// A row's squared distances are lengths.
proof fn lemma_apart(m: Seq<Seq<Binary32>>, i: int, j: int)
    requires
        are_rows(m),
        0 <= i < m.len(),
        0 <= j < m.len(),
    ensures
        is_length(distance32(m[i], m[j])),
        is_length(apart(m, i, j)),
{
    assert(all_finite(m[i]) && all_finite(m[j]));
    assert(m[i].len() == m[j].len());
    lemma_distance_is_number(m[i], m[j]);
    distance32(m[i], m[j]).square_is_not_negative();
}

/// Lengths that are each no larger have no larger a sum.
pub proof fn lemma_smaller_terms(s: Seq<Binary32>, t: Seq<Binary32>)
    requires
        s.len() == t.len(),
        forall|k: int|
            0 <= k < s.len() ==> is_length(#[trigger] s[k]) && is_length(t[k]) && s[k].rank()
                <= t[k].rank(),
    ensures
        is_length(sum32(s)),
        is_length(sum32(t)),
        sum32(s).rank() <= sum32(t).rank(),
    decreases s.len(),
{
    if s.len() == 0 {
        lemma_empty_sum();
        lemma_number(empty_sum32());
    } else {
        let (a, b) = (s.drop_last(), t.drop_last());
        assert forall|k: int| 0 <= k < a.len() implies is_length(#[trigger] a[k]) && is_length(b[k])
            && a[k].rank() <= b[k].rank() by {
            assert(is_length(s[k]));
        }
        lemma_smaller_terms(a, b);
        assert(is_length(s[s.len() - 1]));
        let (x, y) = (s.last(), t.last());
        sum32(a).lengths_keep_the_order(sum32(b), x);
        x.lengths_keep_the_order(y, sum32(b));
        sum32(b).plus_commutes(x);
        sum32(b).plus_commutes(y);
    }
}

/// A sum of lengths is no smaller than any of them.
pub proof fn lemma_terms_within(s: Seq<Binary32>, k: int)
    requires
        0 <= k < s.len(),
        forall|i: int| 0 <= i < s.len() ==> is_length(#[trigger] s[i]),
    ensures
        s[k].rank() <= sum32(s).rank(),
    decreases s.len(),
{
    let a = s.drop_last();
    assert forall|i: int| 0 <= i < a.len() implies is_length(#[trigger] a[i]) by {
        assert(is_length(s[i]));
    }
    lemma_lengths_add_up(a);
    assert(is_length(s[s.len() - 1]));
    sum32(a).lengths_keep_the_order(sum32(a), s.last());
    if k < s.len() - 1 {
        lemma_terms_within(a, k);
    }
}

/// Of a sorted list, the number at place `a` is no larger than some value
/// where at least `a + 1` numbers of the list are not.
proof fn lemma_place(v: Seq<Binary32>, at: Seq<usize>, a: int, value: int)
    requires
        v.len() <= usize::MAX,
        0 <= a < v.len(),
        at.len() == a + 1,
        at.no_duplicates(),
        forall|b: int| 0 <= b < at.len() ==> #[trigger] at[b] < v.len() && v[at[b] as int].rank() <= value,
    ensures
        sorted32(v)[a].rank() <= value,
{
    let ranks = ranks32(v);
    let p = stable_order(ranks);
    stable_order_is_a_sorted_permutation(ranks);
    if sorted32(v)[a].rank() > value {
        let head = p.take(a);
        assert(head.no_duplicates());
        assert(at.to_set().subset_of(head.to_set())) by {
            assert forall|x: usize| at.to_set().contains(x) implies head.to_set().contains(x) by {
                let b = choose|b: int| 0 <= b < at.len() && at[b] == x;
                assert(at[b] < v.len());
                assert(p.contains(x));
                let q = choose|q: int| 0 <= q < p.len() && p[q] == x;
                if q >= a {
                    if q > a {
                        assert(ranks[p[a] as int] <= ranks[p[q] as int]);
                    }
                    assert(false);
                }
                assert(head[q] == x);
            }
        }
        at.unique_seq_to_set();
        head.unique_seq_to_set();
        vstd::seq_lib::seq_to_set_is_finite(head);
        vstd::set_lib::lemma_len_subset(at.to_set(), head.to_set());
    }
}

/// A score is no larger than the farness from any choice of as many others.
proof fn lemma_score_at_most(fraction: Binary32, m: Seq<Seq<Binary32>>, i: int, chosen: Seq<int>)
    requires
        are_rows(m),
        2 <= m.len() <= usize::MAX,
        0 <= i < m.len(),
        are_others(m, i, chosen),
        chosen.len() == company(fraction, m.len()),
    ensures
        krum_score(fraction, m, i).rank() <= farness(m, i, chosen).rank(),
{
    let v = squares_to_others(m, i);
    let k = chosen.len();
    lemma_squares(m, i);
    lemma_choice_fits(m, i, chosen);
    let least = at_most_first(sorted32(v), k);
    let terms = Seq::new(k, |a: int| apart(m, i, chosen[a]));
    let ranks = ranks32(v);
    stable_order_is_a_sorted_permutation(ranks);
    assert forall|a: int| 0 <= a < k implies is_length(#[trigger] least[a]) && is_length(terms[a])
        && least[a].rank() <= terms[a].rank() by {
        assert(least[a] == sorted32(v)[a]);
        assert(stable_order(ranks)[a] < v.len());
        assert(is_length(v[stable_order(ranks)[a] as int]));
        assert(0 <= chosen[a] < m.len());
        lemma_apart(m, i, chosen[a]);
        let at = Seq::new(
            (a + 1) as nat,
            |b: int|
                (if chosen[b] < i {
                    chosen[b]
                } else {
                    chosen[b] - 1
                }) as usize,
        );
        assert forall|b: int| 0 <= b < at.len() implies #[trigger] at[b] < v.len()
            && v[at[b] as int].rank() <= terms[a].rank() by {
            assert(0 <= chosen[b] < m.len() && chosen[b] != i);
            assert(other(i, at[b] as int) == chosen[b]);
            assert(apart(m, i, chosen[b]).rank() <= apart(m, i, chosen[a]).rank());
        }
        assert(at.no_duplicates()) by {
            assert forall|b: int, c: int| 0 <= b < at.len() && 0 <= c < at.len() && b != c implies
                at[b] != at[c] by {
                assert(0 <= chosen[b] < m.len() && chosen[b] != i);
                assert(0 <= chosen[c] < m.len() && chosen[c] != i);
                assert(chosen[b] != chosen[c]);
            }
        }
        lemma_place(v, at, a, terms[a].rank());
    }
    lemma_smaller_terms(least, terms);
}

/// No more others can be chosen than there are.
proof fn lemma_choice_fits(m: Seq<Seq<Binary32>>, i: int, chosen: Seq<int>)
    requires
        0 <= i < m.len(),
        are_others(m, i, chosen),
    ensures
        chosen.len() <= m.len() - 1,
{
    let all = vstd::set_lib::set_int_range(0, m.len() as int).remove(i);
    vstd::set_lib::lemma_int_range(0, m.len() as int);
    assert(chosen.to_set().subset_of(all)) by {
        assert forall|x: int| chosen.to_set().contains(x) implies all.contains(x) by {
            let a = choose|a: int| 0 <= a < chosen.len() && chosen[a] == x;
            assert(0 <= chosen[a] < m.len() && chosen[a] != i);
        }
    }
    chosen.unique_seq_to_set();
    vstd::set_lib::lemma_len_subset(chosen.to_set(), all);
}

/// The others a score is made of.
spec fn neighbours(fraction: Binary32, m: Seq<Seq<Binary32>>, i: int) -> Seq<int> {
    let p = stable_order(ranks32(squares_to_others(m, i)));
    Seq::new(company(fraction, m.len()), |a: int| other(i, p[a] as int))
}

/// They are as many others, and the score is the farness from them.
proof fn lemma_score_attained(fraction: Binary32, m: Seq<Seq<Binary32>>, i: int)
    requires
        are_rows(m),
        2 <= m.len() <= usize::MAX,
        0 <= i < m.len(),
    ensures
        are_others(m, i, neighbours(fraction, m, i)),
        neighbours(fraction, m, i).len() == company(fraction, m.len()),
        krum_score(fraction, m, i) == farness(m, i, neighbours(fraction, m, i)),
{
    let v = squares_to_others(m, i);
    let ranks = ranks32(v);
    let p = stable_order(ranks);
    let chosen = neighbours(fraction, m, i);
    lemma_squares(m, i);
    stable_order_is_a_sorted_permutation(ranks);
    let k = company(fraction, m.len());
    assert(k <= v.len());
    assert forall|a: int| 0 <= a < k implies 0 <= #[trigger] chosen[a] < m.len() && chosen[a] != i
        && apart(m, i, chosen[a]) == v[p[a] as int] by {
        assert(p[a] < v.len());
    }
    assert forall|a: int, b: int| 0 <= a <= b < k implies apart(m, i, #[trigger] chosen[a]).rank()
        <= apart(m, i, #[trigger] chosen[b]).rank() by {
        assert(apart(m, i, chosen[a]) == v[p[a] as int]);
        assert(apart(m, i, chosen[b]) == v[p[b] as int]);
        if a < b {
            assert(ranks[p[a] as int] <= ranks[p[b] as int]);
        }
    }
    assert(chosen.no_duplicates()) by {
        assert forall|a: int, b: int| 0 <= a < k && 0 <= b < k && a != b implies chosen[a]
            != chosen[b] by {
            assert(p[a] != p[b]);
        }
    }
    let least = at_most_first(sorted32(v), k);
    assert(least =~= Seq::new(k, |a: int| apart(m, i, chosen[a]))) by {
        assert forall|a: int| 0 <= a < k implies least[a] == apart(m, i, chosen[a]) by {
            assert(apart(m, i, chosen[a]) == v[p[a] as int]);
        }
    }
}

/// Whether row `i` has company no farther than any that row `j` can have.
pub open spec fn is_as_close(fraction: Binary32, m: Seq<Seq<Binary32>>, i: int, j: int) -> bool {
    exists|own: Seq<int>|
        {
            &&& are_others(m, i, own)
            &&& own.len() == company(fraction, m.len())
            &&& forall|theirs: Seq<int>|
                #![trigger farness(m, j, theirs)]
                are_others(m, j, theirs) && theirs.len() == company(fraction, m.len()) ==> farness(
                    m,
                    i,
                    own,
                ).rank() <= farness(m, j, theirs).rank()
        }
}

/// A score is no larger exactly where the company is as close.
pub proof fn lemma_as_close(fraction: Binary32, m: Seq<Seq<Binary32>>, i: int, j: int)
    requires
        are_rows(m),
        2 <= m.len() <= usize::MAX,
        0 <= i < m.len(),
        0 <= j < m.len(),
    ensures
        krum_score(fraction, m, i).rank() <= krum_score(fraction, m, j).rank() <==> is_as_close(
            fraction,
            m,
            i,
            j,
        ),
{
    let k = company(fraction, m.len());
    let own = neighbours(fraction, m, i);
    lemma_score_attained(fraction, m, i);
    lemma_score_attained(fraction, m, j);
    if krum_score(fraction, m, i).rank() <= krum_score(fraction, m, j).rank() {
        assert forall|theirs: Seq<int>|
            #![trigger farness(m, j, theirs)]
            are_others(m, j, theirs) && theirs.len() == k implies farness(m, i, own).rank()
            <= farness(m, j, theirs).rank() by {
            lemma_score_at_most(fraction, m, j, theirs);
        }
    }
    if is_as_close(fraction, m, i, j) {
        let mine = choose|mine: Seq<int>|
            {
                &&& are_others(m, i, mine)
                &&& mine.len() == k
                &&& forall|theirs: Seq<int>|
                    #![trigger farness(m, j, theirs)]
                    are_others(m, j, theirs) && theirs.len() == k ==> farness(m, i, mine).rank()
                        <= farness(m, j, theirs).rank()
            };
        lemma_score_at_most(fraction, m, i, mine);
        let theirs = neighbours(fraction, m, j);
        assert(farness(m, i, mine).rank() <= farness(m, j, theirs).rank());
    }
}

/// The rows of an accepted batch are rows.
pub proof fn lemma_accepted_rows(batch: Seq<Delta>)
    requires
        batch.len() > 0,
        validated(batch) is Ok,
    ensures
        validated(batch)->Ok_0.len() == batch.len(),
        are_rows(validated(batch)->Ok_0),
{
    accepted_batches_are_fit(batch);
    let m = validated(batch)->Ok_0;
    assert forall|i: int, j: int| 0 <= i < m.len() && 0 <= j < m.len() implies (
    #[trigger] m[i]).len() == (#[trigger] m[j]).len() by {
        assert(m[i].len() == batch[0].weights.len() / 4);
        assert(m[j].len() == batch[0].weights.len() / 4);
    }
}

/// The update Krum keeps is in the closest company: no other update, with
/// whatever others one may choose for it, is closer to them, and none before
/// it is as close.
pub proof fn krum_keeps_the_closest(filter: KrumFilter, batch: Seq<Delta>, j: int)
    requires
        2 <= batch.len() <= usize::MAX,
        validated(batch) is Ok,
        0 <= j < batch.len(),
    ensures
        filter.selects(batch) is Ok,
        filter.selects(batch)->Ok_0.len() == 1,
        filter.selects(batch)->Ok_0[0] < batch.len(),
        is_as_close(
            filter.byzantine_fraction,
            validated(batch)->Ok_0,
            filter.selects(batch)->Ok_0[0] as int,
            j,
        ),
        j < filter.selects(batch)->Ok_0[0] ==> !is_as_close(
            filter.byzantine_fraction,
            validated(batch)->Ok_0,
            j,
            filter.selects(batch)->Ok_0[0] as int,
        ),
{
    let m = validated(batch)->Ok_0;
    lemma_accepted_rows(batch);
    let f = filter.byzantine_fraction;
    let ranks = ranks32(krum_scores_of(f, m));
    stable_order_is_a_sorted_permutation(ranks);
    let p = stable_order(ranks);
    let i = first_lowest(ranks) as int;
    assert(p[0] < m.len());
    assert(p.contains(j as usize));
    let q = choose|q: int| 0 <= q < p.len() && p[q] == j as usize;
    if q > 0 {
        assert(ranks[p[0] as int] < ranks[p[q] as int] || (ranks[p[0] as int]
            == ranks[p[q] as int] && p[0] < p[q]));
    }
    lemma_as_close(f, m, i, j);
    lemma_as_close(f, m, j, i);
}

/// Whoever Multi-Krum keeps is in company as close as whoever it drops.
pub proof fn multi_krum_keeps_the_closest(filter: MultiKrumFilter, batch: Seq<Delta>, i: int, j: int)
    requires
        2 <= batch.len() <= usize::MAX,
        validated(batch) is Ok,
        0 <= i < batch.len(),
        0 <= j < batch.len(),
        filter.selects(batch)->Ok_0.contains(i as usize),
        !filter.selects(batch)->Ok_0.contains(j as usize),
    ensures
        is_as_close(filter.byzantine_fraction, validated(batch)->Ok_0, i, j),
{
    let m = validated(batch)->Ok_0;
    lemma_accepted_rows(batch);
    let f = filter.byzantine_fraction;
    let ranks = ranks32(krum_scores_of(f, m));
    stable_order_is_a_sorted_permutation(ranks);
    let p = stable_order(ranks);
    let best = p.take(m.len() - assumed_byzantine(f, m.len()));
    let keep = |x: int| best.contains(x as usize);
    lemma_kept_contains(m.len(), keep, i as usize);
    lemma_kept_contains(m.len(), keep, j as usize);
    let a = choose|a: int| 0 <= a < best.len() && best[a] == i as usize;
    assert(p.contains(j as usize));
    let b = choose|b: int| 0 <= b < p.len() && p[b] == j as usize;
    if b < best.len() {
        assert(best[b] == j as usize);
    }
    assert(ranks[p[a] as int] <= ranks[p[b] as int]);
    lemma_as_close(f, m, i, j);
}

/// The square of `r`, as often as Krum looks at a neighbour, added up.
pub open spec fn all_at(r: Binary32, k: nat) -> Binary32 {
    sum32(Seq::new(k, |a: int| r.times(r)))
}

/// A majority in close company cannot be passed over: where all but the
/// assumed hostile number of updates lie within `r` of each other, and every
/// other one lies at least `far` from each of them, the update Krum keeps is
/// one of theirs, as soon as the square of `far` is more than the square of
/// `r` added up as often as Krum looks at a neighbour. (Less than half, less
/// one, are assumed hostile.)
pub proof fn krum_stays_with_the_majority(
    filter: KrumFilter,
    batch: Seq<Delta>,
    good: Set<int>,
    r: Binary32,
    far: Binary32,
)
    requires
        2 * assumed_byzantine(filter.byzantine_fraction, batch.len()) + 2 < batch.len()
            <= usize::MAX,
        validated(batch) is Ok,
        good.subset_of(vstd::set_lib::set_int_range(0, batch.len() as int)),
        good.len() >= batch.len() - assumed_byzantine(filter.byzantine_fraction, batch.len()),
        is_length(r),
        is_length(far),
        forall|i: int, j: int|
            good.contains(i) && good.contains(j) && i != j ==> distance32(
                #[trigger] validated(batch)->Ok_0[i],
                #[trigger] validated(batch)->Ok_0[j],
            ).rank() <= r.rank(),
        forall|i: int, j: int|
            good.contains(i) && 0 <= j < batch.len() && !good.contains(j) ==> far.rank()
                <= distance32(
                #[trigger] validated(batch)->Ok_0[j],
                #[trigger] validated(batch)->Ok_0[i],
            ).rank(),
        all_at(
            r,
            (batch.len() - assumed_byzantine(filter.byzantine_fraction, batch.len()) - 2) as nat,
        ).below(far.times(far)),
    ensures
        good.contains(filter.selects(batch)->Ok_0[0] as int),
{
    let m = validated(batch)->Ok_0;
    lemma_accepted_rows(batch);
    let n = batch.len();
    let f = assumed_byzantine(filter.byzantine_fraction, n);
    let k = (n - f - 2) as nat;
    let all = vstd::set_lib::set_int_range(0, n as int);
    vstd::set_lib::lemma_int_range(0, n as int);
    vstd::set_lib::lemma_set_subset_finite(all, good);
    vstd::set_lib::lemma_len_subset(good, all);
    krum_keeps_the_closest(filter, batch, 0);
    let j = filter.selects(batch)->Ok_0[0] as int;
    if !good.contains(j) {
        let i = good.choose();
        assert(good.len() > 0);
        assert(good.contains(i));
        assert(all.contains(i));
        krum_keeps_the_closest(filter, batch, i);
        lemma_as_close(filter.byzantine_fraction, m, j, i);
        lemma_good_score(filter.byzantine_fraction, m, good, i, r, k);
        lemma_bad_score(filter.byzantine_fraction, m, good, j, far, k);
    }
}

/// A finite set can be listed.
proof fn lemma_listed(s: Set<int>) -> (list: Seq<int>)
    requires
        s.finite(),
    ensures
        list.no_duplicates(),
        list.len() == s.len(),
        forall|a: int| 0 <= a < list.len() ==> s.contains(#[trigger] list[a]),
    decreases s.len(),
{
    if s.len() == 0 {
        Seq::empty()
    } else {
        let x = s.choose();
        let rest = lemma_listed(s.remove(x));
        let list = rest.push(x);
        assert forall|a: int| 0 <= a < list.len() implies s.contains(#[trigger] list[a]) by {
            if a < rest.len() {
                assert(s.remove(x).contains(rest[a]));
            }
        }
        assert(list.no_duplicates()) by {
            assert forall|a: int, b: int| 0 <= a < list.len() && 0 <= b < list.len() && a
                != b implies list[a] != list[b] by {
                if a < rest.len() {
                    assert(s.remove(x).contains(rest[a]));
                }
                if b < rest.len() {
                    assert(s.remove(x).contains(rest[b]));
                }
            }
        }
        list
    }
}

proof fn lemma_good_score(
    fraction: Binary32,
    m: Seq<Seq<Binary32>>,
    good: Set<int>,
    i: int,
    r: Binary32,
    k: nat,
)
    requires
        are_rows(m),
        2 <= m.len() <= usize::MAX,
        k == company(fraction, m.len()),
        good.subset_of(vstd::set_lib::set_int_range(0, m.len() as int)),
        good.len() >= k + 1,
        good.contains(i),
        is_length(r),
        forall|a: int, b: int|
            good.contains(a) && good.contains(b) && a != b ==> distance32(
                #[trigger] m[a],
                #[trigger] m[b],
            ).rank() <= r.rank(),
    ensures
        krum_score(fraction, m, i).rank() <= all_at(r, k).rank(),
        is_length(all_at(r, k)),
{
    let all = vstd::set_lib::set_int_range(0, m.len() as int);
    vstd::set_lib::lemma_int_range(0, m.len() as int);
    vstd::set_lib::lemma_set_subset_finite(all, good);
    assert(all.contains(i));
    let v = squares_to_others(m, i);
    lemma_squares(m, i);
    let ranks = ranks32(v);
    stable_order_is_a_sorted_permutation(ranks);
    let least = at_most_first(sorted32(v), k);
    let bound = Seq::new(k, |a: int| r.times(r));
    r.square_is_not_negative();
    let rest = good.remove(i);
    let list = lemma_listed(rest);
    assert forall|a: int| 0 <= a < k implies is_length(#[trigger] least[a]) && is_length(bound[a])
        && least[a].rank() <= bound[a].rank() by {
        assert(least[a] == sorted32(v)[a]);
        assert(stable_order(ranks)[a] < v.len());
        assert(is_length(v[stable_order(ranks)[a] as int]));
        let at = Seq::new(
            (a + 1) as nat,
            |b: int|
                (if list[b] < i {
                    list[b]
                } else {
                    list[b] - 1
                }) as usize,
        );
        assert forall|b: int| 0 <= b < at.len() implies #[trigger] at[b] < v.len()
            && v[at[b] as int].rank() <= r.times(r).rank() by {
            assert(rest.contains(list[b]));
            assert(all.contains(list[b]));
            assert(other(i, at[b] as int) == list[b]);
            lemma_apart(m, i, list[b]);
            assert(distance32(m[i], m[list[b]]).rank() <= r.rank());
            distance32(m[i], m[list[b]]).squares_keep_the_order(r);
        }
        assert(at.no_duplicates()) by {
            assert forall|b: int, c: int| 0 <= b < at.len() && 0 <= c < at.len() && b != c implies
                at[b] != at[c] by {
                assert(rest.contains(list[b]) && rest.contains(list[c]));
                assert(all.contains(list[b]) && all.contains(list[c]));
                assert(list[b] != list[c]);
            }
        }
        lemma_place(v, at, a, r.times(r).rank());
    }
    lemma_smaller_terms(least, bound);
}

proof fn lemma_bad_score(
    fraction: Binary32,
    m: Seq<Seq<Binary32>>,
    good: Set<int>,
    j: int,
    far: Binary32,
    k: nat,
)
    requires
        are_rows(m),
        2 <= m.len() <= usize::MAX,
        k == company(fraction, m.len()),
        good.subset_of(vstd::set_lib::set_int_range(0, m.len() as int)),
        m.len() - good.len() <= k,
        0 <= j < m.len(),
        !good.contains(j),
        is_length(far),
        forall|a: int, b: int|
            good.contains(a) && 0 <= b < m.len() && !good.contains(b) ==> far.rank() <= distance32(
                #[trigger] m[b],
                #[trigger] m[a],
            ).rank(),
    ensures
        far.times(far).rank() <= krum_score(fraction, m, j).rank(),
{
    let all = vstd::set_lib::set_int_range(0, m.len() as int);
    vstd::set_lib::lemma_int_range(0, m.len() as int);
    vstd::set_lib::lemma_set_subset_finite(all, good);
    let chosen = neighbours(fraction, m, j);
    lemma_score_attained(fraction, m, j);
    let terms = Seq::new(k, |a: int| apart(m, j, chosen[a]));
    assert forall|a: int| 0 <= a < k implies is_length(#[trigger] terms[a]) by {
        assert(0 <= chosen[a] < m.len());
        lemma_apart(m, j, chosen[a]);
    }
    // one of the chosen is good
    let bad = all.difference(good).remove(j);
    assert(good.union(all.difference(good)) =~= all);
    vstd::set_lib::lemma_set_disjoint_lens(good, all.difference(good));
    if forall|a: int| 0 <= a < k ==> !good.contains(#[trigger] chosen[a]) {
        assert(chosen.to_set().subset_of(bad)) by {
            assert forall|x: int| chosen.to_set().contains(x) implies bad.contains(x) by {
                let a = choose|a: int| 0 <= a < chosen.len() && chosen[a] == x;
                assert(0 <= chosen[a] < m.len() && chosen[a] != j);
            }
        }
        chosen.unique_seq_to_set();
        vstd::set_lib::lemma_len_subset(chosen.to_set(), bad);
        assert(false);
    }
    let a = choose|a: int| 0 <= a < k && good.contains(#[trigger] chosen[a]);
    lemma_apart(m, j, chosen[a]);
    assert(far.rank() <= distance32(m[j], m[chosen[a]]).rank());
    far.squares_keep_the_order(distance32(m[j], m[chosen[a]]));
    lemma_terms_within(terms, a);
}

} // verus!
