//! Stable orderings.
use vstd::prelude::*;
use crate::float::binary32::Binary32;

verus! {

/// `p` with `i` put behind the last index that does not rank above it.
pub open spec fn inserted(p: Seq<usize>, ranks: Seq<int>, i: usize) -> Seq<usize>
    decreases p.len(),
{
    if p.len() == 0 || ranks[p.last() as int] <= ranks[i as int] {
        p.push(i)
    } else {
        inserted(p.drop_last(), ranks, i).push(p.last())
    }
}

/// The first `n` indices, from the lowest rank up, equal ranks in index order.
pub open spec fn order_prefix(ranks: Seq<int>, n: nat) -> Seq<usize>
    decreases n,
{
    if n == 0 {
        Seq::empty()
    } else {
        inserted(order_prefix(ranks, (n - 1) as nat), ranks, (n - 1) as usize)
    }
}

/// The indices of `ranks`, from the lowest rank up, equal ranks in index
/// order.
pub open spec fn stable_order(ranks: Seq<int>) -> Seq<usize> {
    order_prefix(ranks, ranks.len())
}

pub open spec fn sorted_by(p: Seq<usize>, ranks: Seq<int>) -> bool {
    forall|a: int, b: int|
        0 <= a < b < p.len() ==> {
            ||| ranks[#[trigger] p[a] as int] < ranks[#[trigger] p[b] as int]
            ||| ranks[p[a] as int] == ranks[p[b] as int] && p[a] < p[b]
        }
}

/// Where `inserted` puts the new index, and that it keeps the rest in place.
proof fn lemma_inserted_at(p: Seq<usize>, ranks: Seq<int>, i: usize, k: int)
    requires
        0 <= k <= p.len(),
        k > 0 ==> ranks[p[k - 1] as int] <= ranks[i as int],
        forall|a: int| k <= a < p.len() ==> ranks[#[trigger] p[a] as int] > ranks[i as int],
    ensures
        inserted(p, ranks, i) == p.insert(k, i),
    decreases p.len(),
{
    if k == p.len() {
        assert(p.insert(k, i) =~= p.push(i));
    } else {
        let q = p.drop_last();
        lemma_inserted_at(q, ranks, i, k);
        assert(p.insert(k, i) =~= q.insert(k, i).push(p.last()));
    }
}

/// The order lists every index once, from the lowest rank up, and keeps
/// equal ranks in index order.
pub proof fn stable_order_is_a_sorted_permutation(ranks: Seq<int>)
    requires
        ranks.len() <= usize::MAX,
    ensures
        stable_order(ranks).len() == ranks.len(),
        sorted_by(stable_order(ranks), ranks),
        forall|a: int|
            0 <= a < ranks.len() ==> #[trigger] stable_order(ranks)[a] < ranks.len(),
        stable_order(ranks).no_duplicates(),
        forall|j: usize| j < ranks.len() ==> #[trigger] stable_order(ranks).contains(j),
{
    lemma_order_prefix(ranks, ranks.len());
}

pub proof fn lemma_order_prefix(ranks: Seq<int>, n: nat)
    requires
        n <= ranks.len() <= usize::MAX,
    ensures
        order_prefix(ranks, n).len() == n,
        sorted_by(order_prefix(ranks, n), ranks),
        forall|a: int| 0 <= a < n ==> #[trigger] order_prefix(ranks, n)[a] < n,
        order_prefix(ranks, n).no_duplicates(),
        forall|j: usize| j < n ==> #[trigger] order_prefix(ranks, n).contains(j),
    decreases n,
{
    if n > 0 {
        let m = (n - 1) as nat;
        let p = order_prefix(ranks, m);
        let i = m as usize;
        lemma_order_prefix(ranks, m);
        let k = lemma_insertion_point(p, ranks, i);
        lemma_inserted_at(p, ranks, i, k);
        let q = p.insert(k, i);
        assert(order_prefix(ranks, n) == q);
        assert forall|a: int| 0 <= a < n implies #[trigger] q[a] < n by {
            if a < k {
                assert(q[a] == p[a]);
            } else if a > k {
                assert(q[a] == p[a - 1]);
            }
        }
        assert(sorted_by(q, ranks)) by {
            assert forall|a: int, b: int| 0 <= a < b < q.len() implies {
                ||| ranks[#[trigger] q[a] as int] < ranks[#[trigger] q[b] as int]
                ||| ranks[q[a] as int] == ranks[q[b] as int] && q[a] < q[b]
            } by {
                if b < k {
                    assert(q[a] == p[a] && q[b] == p[b]);
                } else if b == k {
                    assert(q[a] == p[a]);
                    if a < k - 1 {
                        assert(ranks[p[a] as int] <= ranks[p[k - 1] as int]);
                    }
                } else if a < k {
                    assert(q[a] == p[a] && q[b] == p[b - 1]);
                } else if a == k {
                    assert(q[b] == p[b - 1]);
                } else {
                    assert(q[a] == p[a - 1] && q[b] == p[b - 1]);
                }
            }
        }
        assert(q.no_duplicates()) by {
            assert forall|a: int, b: int| 0 <= a < q.len() && 0 <= b < q.len() && a != b implies q[a]
                != q[b] by {
                let pa = if a < k { a } else { a - 1 };
                let pb = if b < k { b } else { b - 1 };
                if a != k && b != k {
                    assert(q[a] == p[pa] && q[b] == p[pb]);
                    assert(pa != pb);
                } else if a == k {
                    assert(q[b] == p[pb]);
                    assert(p[pb] < m);
                } else {
                    assert(q[a] == p[pa]);
                    assert(p[pa] < m);
                }
            }
        }
        assert forall|j: usize| j < n implies #[trigger] q.contains(j) by {
            if j == i {
                assert(q[k] == j);
            } else {
                assert(p.contains(j));
                let a = choose|a: int| 0 <= a < p.len() && p[a] == j;
                if a < k {
                    assert(q[a] == j);
                } else {
                    assert(q[a + 1] == j);
                }
            }
        }
    }
}

proof fn lemma_insertion_point(p: Seq<usize>, ranks: Seq<int>, i: usize) -> (k: int)
    requires
        sorted_by(p, ranks),
    ensures
        0 <= k <= p.len(),
        k > 0 ==> ranks[p[k - 1] as int] <= ranks[i as int],
        forall|a: int| k <= a < p.len() ==> ranks[#[trigger] p[a] as int] > ranks[i as int],
    decreases p.len(),
{
    if p.len() == 0 || ranks[p.last() as int] <= ranks[i as int] {
        p.len() as int
    } else {
        let q = p.drop_last();
        assert(sorted_by(q, ranks)) by {
            assert forall|a: int, b: int| 0 <= a < b < q.len() implies {
                ||| ranks[#[trigger] q[a] as int] < ranks[#[trigger] q[b] as int]
                ||| ranks[q[a] as int] == ranks[q[b] as int] && q[a] < q[b]
            } by {
                assert(q[a] == p[a] && q[b] == p[b]);
            }
        }
        let k = lemma_insertion_point(q, ranks, i);
        assert forall|a: int| k <= a < p.len() implies ranks[#[trigger] p[a] as int]
            > ranks[i as int] by {
            if a < q.len() {
                assert(p[a] == q[a]);
            }
        }
        k
    }
}

/// Ranks as mathematical integers.
pub open spec fn as_ranks(r: Seq<i64>) -> Seq<int> {
    Seq::new(r.len(), |i: int| r[i] as int)
}

/// Lists the indices from the lowest rank up, equal ranks in index order.
pub fn order_by_rank(ranks: &Vec<i64>) -> (r: Vec<usize>)
    ensures
        r@ == stable_order(as_ranks(ranks@)),
        r.len() == ranks.len(),
        forall|k: int| 0 <= k < r.len() ==> #[trigger] r[k] < ranks.len(),
{
    let ghost rs = as_ranks(ranks@);
    let mut out: Vec<usize> = Vec::with_capacity(ranks.len());
    let mut n: usize = 0;
    while n < ranks.len()
        invariant
            n <= ranks.len(),
            rs == as_ranks(ranks@),
            out@ == order_prefix(rs, n as nat),
        decreases ranks.len() - n,
    {
        proof {
            lemma_order_prefix(rs, n as nat);
        }
        let ghost p = out@;
        let mut k: usize = out.len();
        while k > 0 && ranks[out[k - 1]] > ranks[n]
            invariant
                k <= out.len(),
                n < ranks.len(),
                out@ == p,
                p.len() == n,
                rs == as_ranks(ranks@),
                forall|a: int| 0 <= a < p.len() ==> #[trigger] p[a] < n,
                forall|a: int| k <= a < p.len() ==> rs[#[trigger] p[a] as int] > rs[n as int],
            decreases k,
        {
            k = k - 1;
        }
        proof {
            if k > 0 {
                assert(p[k - 1] < n);
            }
            lemma_inserted_at(p, rs, n, k as int);
        }
        out.insert(k, n);
        n = n + 1;
    }
    proof {
        lemma_order_prefix(rs, rs.len());
    }
    out
}

/// The ranks of a vector of numbers.
pub open spec fn ranks32(v: Seq<Binary32>) -> Seq<int> {
    Seq::new(v.len(), |i: int| v[i].rank())
}

/// The numbers of `v` from the lowest rank up, equal ranks in their old order.
pub open spec fn sorted32(v: Seq<Binary32>) -> Seq<Binary32> {
    let p = stable_order(ranks32(v));
    Seq::new(v.len(), |k: int| v[p[k] as int])
}

/// The indices of `v` from the lowest rank up.
pub fn order32(v: &[Binary32]) -> (r: Vec<usize>)
    ensures
        r@ == stable_order(ranks32(v@)),
        r.len() == v.len(),
        forall|k: int| 0 <= k < r.len() ==> #[trigger] r[k] < v.len(),
{
    let mut ranks: Vec<i64> = Vec::with_capacity(v.len());
    let mut i: usize = 0;
    while i < v.len()
        invariant
            i <= v.len(),
            ranks.len() == i,
            forall|k: int| 0 <= k < i ==> #[trigger] ranks[k] == v[k].rank(),
        decreases v.len() - i,
    {
        ranks.push(v[i].order_key());
        i = i + 1;
    }
    proof {
        assert(as_ranks(ranks@) =~= ranks32(v@));
    }
    order_by_rank(&ranks)
}

/// Sorts numbers from the lowest rank up, equal ranks in their old order.
pub fn sort32(v: &[Binary32]) -> (r: Vec<Binary32>)
    ensures
        r@ == sorted32(v@),
{
    let p: Vec<usize> = order32(v);
    let mut out: Vec<Binary32> = Vec::with_capacity(v.len());
    let mut k: usize = 0;
    while k < p.len()
        invariant
            k <= p.len(),
            p.len() == v.len(),
            out.len() == k,
            forall|j: int| 0 <= j < p.len() ==> #[trigger] p[j] < v.len(),
            forall|j: int| 0 <= j < k ==> #[trigger] out[j] == v[p[j] as int],
        decreases p.len() - k,
    {
        out.push(v[p[k]]);
        k = k + 1;
    }
    proof {
        assert(out@ =~= sorted32(v@));
    }
    out
}

/// Position of the first lowest rank of a list that is not empty.
pub open spec fn first_lowest(ranks: Seq<int>) -> nat {
    stable_order(ranks)[0] as nat
}

/// Finds the first lowest number.
pub fn lowest32(v: &[Binary32]) -> (r: usize)
    requires
        v.len() > 0,
    ensures
        r as nat == first_lowest(ranks32(v@)),
        r < v.len(),
        forall|k: int| 0 <= k < v.len() ==> v[r as int].rank() <= (#[trigger] v[k]).rank(),
        forall|k: int| 0 <= k < r ==> v[r as int].rank() < (#[trigger] v[k]).rank(),
{
    let mut best: usize = 0;
    let mut i: usize = 1;
    while i < v.len()
        invariant
            1 <= i <= v.len(),
            best < i,
            forall|k: int| 0 <= k < i ==> v[best as int].rank() <= (#[trigger] v[k]).rank(),
            forall|k: int| 0 <= k < best ==> v[best as int].rank() < (#[trigger] v[k]).rank(),
        decreases v.len() - i,
    {
        if v[i].ranks_below(v[best]) {
            best = i;
        }
        i = i + 1;
    }
    proof {
        let rs = ranks32(v@);
        stable_order_is_a_sorted_permutation(rs);
        let p = stable_order(rs);
        assert(p.contains(best));
        let a = choose|a: int| 0 <= a < p.len() && p[a] == best;
        if a > 0 {
            assert(p[0] < v.len());
            assert(rs[p[0] as int] == v[p[0] as int].rank());
            assert(rs[p[a] as int] == v[best as int].rank());
        }
    }
    best
}

} // verus!
