//! Fitting a first-order matrix autoregressive model by alternating least
//! squares.
use vstd::prelude::*;
use crate::flanders::matrix::{add_matrices, add_ridge, entries, has_width, identity, identity_entries, matmul, product_of, sum_of, transpose, transposed, with_ridge, zero_entries, zeros, Entries, Matrix};
use crate::flanders::solve::{all_finite_entries, entries_finite, solution, solve};
use crate::float::binary64::Binary64;

verus! {

/// The coordinates a forecast is fitted over: all of them within the limit,
/// else `limit` of them evenly spread.
pub open spec fn spread_coordinates(dim: nat, limit: nat) -> Seq<usize> {
    if dim <= limit || limit == 0 {
        Seq::new(dim, |i: int| i as usize)
    } else {
        Seq::new(limit, |i: int| (i * dim / limit as int) as usize)
    }
}

/// Every coordinate lies in the vector.
pub proof fn spread_coordinates_are_coordinates(dim: nat, limit: nat)
    requires
        dim <= usize::MAX,
    ensures
        forall|k: int|
            0 <= k < spread_coordinates(dim, limit).len() ==> #[trigger] spread_coordinates(
                dim,
                limit,
            )[k] < dim,
{
    let s = spread_coordinates(dim, limit);
    assert forall|k: int| 0 <= k < s.len() implies #[trigger] s[k] < dim by {
        if !(dim <= limit || limit == 0) {
            lemma_spread(k as nat, dim, limit);
        }
    }
}

/// No two coordinates are the same.
pub proof fn spread_coordinates_ascend(dim: nat, limit: nat, a: int, b: int)
    requires
        dim <= usize::MAX,
        0 <= a < b < spread_coordinates(dim, limit).len(),
    ensures
        spread_coordinates(dim, limit)[a] < spread_coordinates(dim, limit)[b],
{
    if !(dim <= limit || limit == 0) {
        lemma_spread(a as nat, dim, limit);
        lemma_spread(b as nat, dim, limit);
        let qa = a * dim / limit as int;
        let qb = b * dim / limit as int;
        assert((a + 1) * dim <= b * dim) by (nonlinear_arith) requires a + 1 <= b, dim >= 0;
        assert((a + 1) * dim == a * dim + dim) by (nonlinear_arith);
        vstd::arithmetic::div_mod::lemma_div_is_ordered(
            a * dim + limit,
            b * dim,
            limit as int,
        );
        vstd::arithmetic::div_mod::lemma_div_plus_one(a * dim, limit as int);
    }
}

proof fn lemma_spread(i: nat, dim: nat, limit: nat)
    requires
        i < limit < dim,
    ensures
        0 <= i * dim / limit < dim,
{
    assert(i * dim < limit * dim) by (nonlinear_arith) requires i < limit, limit < dim;
    vstd::arithmetic::div_mod::lemma_multiply_divide_lt((i * dim) as int, limit as int, dim as int);
    vstd::arithmetic::div_mod::lemma_div_pos_is_pos((i * dim) as int, limit as int);
}

/// The coordinates a forecast is fitted over.
pub fn forecast_coordinates(dim: usize, limit: usize) -> (r: Vec<usize>)
    ensures
        r@ == spread_coordinates(dim as nat, limit as nat),
{
    let ghost goal = spread_coordinates(dim as nat, limit as nat);
    let all: bool = dim <= limit || limit == 0;
    let count: usize = if all {
        dim
    } else {
        limit
    };
    let mut out: Vec<usize> = Vec::with_capacity(count);
    let mut i: usize = 0;
    while i < count
        invariant
            i <= count,
            all == (dim <= limit || limit == 0),
            count == if all { dim } else { limit },
            goal == spread_coordinates(dim as nat, limit as nat),
            out@ == goal.take(i as int),
        decreases count - i,
    {
        if all {
            out.push(i);
        } else {
            proof {
                lemma_spread(i as nat, dim as nat, limit as nat);
                assert(i * dim <= u64::MAX * u64::MAX) by (nonlinear_arith)
                    requires i <= u64::MAX, dim <= u64::MAX;
            }
            out.push(((i as u128) * (dim as u128) / (limit as u128)) as usize);
        }
        proof {
            assert(out@ =~= goal.take(i + 1));
        }
        i = i + 1;
    }
    proof {
        assert(goal.take(i as int) =~= goal);
    }
    out
}

/// One observation and the one that followed it.
pub type Pair = (Entries, Entries);

/// Whether every pair is of `d` rows and `h` columns.
pub open spec fn pairs_shaped(pairs: Seq<Pair>, d: nat, h: nat) -> bool {
    forall|k: int|
        0 <= k < pairs.len() ==> {
            &&& (#[trigger] pairs[k]).0.len() == d
            &&& pairs[k].1.len() == d
            &&& has_width(pairs[k].0, h)
            &&& has_width(pairs[k].1, h)
        }
}

/// The products `z z^T` of the first `k` pairs, with `z = x b`, added up.
pub open spec fn left_gram(pairs: Seq<Pair>, b: Entries, d: nat, k: nat) -> Entries
    decreases k,
{
    if k == 0 {
        zero_entries(d, d)
    } else {
        let z = product_of(pairs[k - 1].0, b);
        sum_of(left_gram(pairs, b, d, (k - 1) as nat), product_of(z, transposed(z)))
    }
}

/// The products `y z^T` of the first `k` pairs, with `z = x b`, added up.
pub open spec fn left_cross(pairs: Seq<Pair>, b: Entries, d: nat, k: nat) -> Entries
    decreases k,
{
    if k == 0 {
        zero_entries(d, d)
    } else {
        let z = product_of(pairs[k - 1].0, b);
        sum_of(left_cross(pairs, b, d, (k - 1) as nat), product_of(pairs[k - 1].1, transposed(z)))
    }
}

/// The products `w^T w` of the first `k` pairs, with `w = a x`, added up.
pub open spec fn right_gram(pairs: Seq<Pair>, a: Entries, h: nat, k: nat) -> Entries
    decreases k,
{
    if k == 0 {
        zero_entries(h, h)
    } else {
        let w = product_of(a, pairs[k - 1].0);
        sum_of(right_gram(pairs, a, h, (k - 1) as nat), product_of(transposed(w), w))
    }
}

/// The products `w^T y` of the first `k` pairs, with `w = a x`, added up.
pub open spec fn right_cross(pairs: Seq<Pair>, a: Entries, h: nat, k: nat) -> Entries
    decreases k,
{
    if k == 0 {
        zero_entries(h, h)
    } else {
        let w = product_of(a, pairs[k - 1].0);
        sum_of(right_cross(pairs, a, h, (k - 1) as nat), product_of(transposed(w), pairs[k - 1].1))
    }
}

/// The best left factor for a fixed right factor.
pub open spec fn left_factor(pairs: Seq<Pair>, b: Entries, ridge: Binary64, d: nat) -> Option<
    Entries,
> {
    match solution(
        with_ridge(left_gram(pairs, b, d, pairs.len()), ridge),
        transposed(left_cross(pairs, b, d, pairs.len())),
    ) {
        None => None,
        Some(x) => Some(transposed(x)),
    }
}

/// The best right factor for a fixed left factor.
pub open spec fn right_factor(pairs: Seq<Pair>, a: Entries, ridge: Binary64, h: nat) -> Option<
    Entries,
> {
    solution(
        with_ridge(right_gram(pairs, a, h, pairs.len()), ridge),
        right_cross(pairs, a, h, pairs.len()),
    )
}

/// Both factors after `times` alternations.
pub open spec fn alternated(
    pairs: Seq<Pair>,
    a: Entries,
    b: Entries,
    ridge: Binary64,
    d: nat,
    h: nat,
    times: nat,
) -> Option<(Entries, Entries)>
    decreases times,
{
    if times == 0 {
        Some((a, b))
    } else {
        match left_factor(pairs, b, ridge, d) {
            None => None,
            Some(a2) => match right_factor(pairs, a2, ridge, h) {
                None => None,
                Some(b2) => alternated(pairs, a2, b2, ridge, d, h, (times - 1) as nat),
            },
        }
    }
}

/// The factors of the model fitted to `pairs`, from the identities on;
/// nothing where a system is singular or a factor leaves the finite numbers.
pub open spec fn fitted(pairs: Seq<Pair>, ridge: Binary64, d: nat, h: nat, times: nat) -> Option<
    (Entries, Entries),
> {
    match alternated(pairs, identity_entries(d), identity_entries(h), ridge, d, h, times) {
        None => None,
        Some(p) => if all_finite_entries(p.0) && all_finite_entries(p.1) {
            Some(p)
        } else {
            None
        },
    }
}

/// The entries of a list of pairs.
pub open spec fn pairs_of(v: Seq<(Matrix, Matrix)>) -> Seq<Pair> {
    Seq::new(v.len(), |k: int| (entries(v[k].0@), entries(v[k].1@)))
}

fn gram_left(pairs: &Vec<(Matrix, Matrix)>, b: &Matrix, d: usize, h: usize) -> (r: (Matrix, Matrix))
    requires
        d > 0,
        h > 0,
        pairs_shaped(pairs_of(pairs@), d as nat, h as nat),
        b.len() == h,
        has_width(entries(b@), h as nat),
    ensures
        entries(r.0@) == left_gram(
            pairs_of(pairs@),
            entries(b@),
            d as nat,
            pairs.len() as nat,
        ),
        entries(r.1@) == left_cross(
            pairs_of(pairs@),
            entries(b@),
            d as nat,
            pairs.len() as nat,
        ),
        r.0.len() == d,
        r.1.len() == d,
        has_width(entries(r.0@), d as nat),
        has_width(entries(r.1@), d as nat),
{
    let ghost pp = pairs_of(pairs@);
    let ghost eb = entries(b@);
    let mut gram: Matrix = zeros(d, d);
    let mut cross: Matrix = zeros(d, d);
    proof {
        assert(entries(gram@).len() == d);
        assert(entries(cross@).len() == d);
    }
    let mut k: usize = 0;
    while k < pairs.len()
        invariant
            k <= pairs.len(),
            d > 0,
            h > 0,
            pp == pairs_of(pairs@),
            eb == entries(b@),
            pairs_shaped(pp, d as nat, h as nat),
            b.len() == h,
            has_width(eb, h as nat),
            entries(gram@) == left_gram(pp, eb, d as nat, k as nat),
            entries(cross@) == left_cross(pp, eb, d as nat, k as nat),
            gram.len() == d,
            cross.len() == d,
            has_width(entries(gram@), d as nat),
            has_width(entries(cross@), d as nat),
        decreases pairs.len() - k,
    {
        proof {
            assert(pp[k as int] == (entries(pairs[k as int].0@), entries(pairs[k as int].1@)));
            assert(eb[0].len() == h);
        }
        let z: Matrix = matmul(&pairs[k].0, b);
        proof {
            assert(entries(z@)[0].len() == h);
            assert(entries(z@).len() == d);
        }
        let zt: Matrix = transpose(&z);
        proof {
            assert(entries(zt@)[0].len() == d);
            assert(entries(zt@).len() == h);
        }
        let zz: Matrix = matmul(&z, &zt);
        let yz: Matrix = matmul(&pairs[k].1, &zt);
        proof {
            assert(entries(zz@).len() == d);
            assert(entries(yz@).len() == d);
            assert(has_width(entries(zz@), d as nat));
            assert(has_width(entries(yz@), d as nat));
            assert(entries(gram@)[0].len() == d);
            assert(entries(cross@)[0].len() == d);
        }
        gram = add_matrices(&gram, &zz, d);
        cross = add_matrices(&cross, &yz, d);
        proof {
            assert(entries(gram@).len() == d);
            assert(entries(cross@).len() == d);
        }
        k = k + 1;
    }
    (gram, cross)
}

fn gram_right(pairs: &Vec<(Matrix, Matrix)>, a: &Matrix, d: usize, h: usize) -> (r: (Matrix, Matrix))
    requires
        d > 0,
        h > 0,
        pairs_shaped(pairs_of(pairs@), d as nat, h as nat),
        a.len() == d,
        has_width(entries(a@), d as nat),
    ensures
        entries(r.0@) == right_gram(
            pairs_of(pairs@),
            entries(a@),
            h as nat,
            pairs.len() as nat,
        ),
        entries(r.1@) == right_cross(
            pairs_of(pairs@),
            entries(a@),
            h as nat,
            pairs.len() as nat,
        ),
        r.0.len() == h,
        r.1.len() == h,
        has_width(entries(r.0@), h as nat),
        has_width(entries(r.1@), h as nat),
{
    let ghost pp = pairs_of(pairs@);
    let ghost ea = entries(a@);
    let mut gram: Matrix = zeros(h, h);
    let mut cross: Matrix = zeros(h, h);
    proof {
        assert(entries(gram@).len() == h);
        assert(entries(cross@).len() == h);
    }
    let mut k: usize = 0;
    while k < pairs.len()
        invariant
            k <= pairs.len(),
            d > 0,
            h > 0,
            pp == pairs_of(pairs@),
            ea == entries(a@),
            pairs_shaped(pp, d as nat, h as nat),
            a.len() == d,
            has_width(ea, d as nat),
            entries(gram@) == right_gram(pp, ea, h as nat, k as nat),
            entries(cross@) == right_cross(pp, ea, h as nat, k as nat),
            gram.len() == h,
            cross.len() == h,
            has_width(entries(gram@), h as nat),
            has_width(entries(cross@), h as nat),
        decreases pairs.len() - k,
    {
        proof {
            assert(pp[k as int] == (entries(pairs[k as int].0@), entries(pairs[k as int].1@)));
            assert(pp[k as int].0[0].len() == h);
            assert(pp[k as int].1[0].len() == h);
        }
        let w: Matrix = matmul(a, &pairs[k].0);
        proof {
            assert(entries(w@)[0].len() == h);
            assert(entries(w@).len() == d);
        }
        let wt: Matrix = transpose(&w);
        proof {
            assert(entries(wt@)[0].len() == d);
            assert(entries(wt@).len() == h);
        }
        let ww: Matrix = matmul(&wt, &w);
        let wy: Matrix = matmul(&wt, &pairs[k].1);
        proof {
            assert(entries(ww@).len() == h);
            assert(entries(wy@).len() == h);
            assert(has_width(entries(ww@), h as nat));
            assert(has_width(entries(wy@), h as nat));
            assert(entries(gram@)[0].len() == h);
            assert(entries(cross@)[0].len() == h);
        }
        gram = add_matrices(&gram, &ww, h);
        cross = add_matrices(&cross, &wy, h);
        proof {
            assert(entries(gram@).len() == h);
            assert(entries(cross@).len() == h);
        }
        k = k + 1;
    }
    (gram, cross)
}

/// Fits both factors to `pairs`; `None` where a system is singular.
pub fn fit_mar(
    pairs: &Vec<(Matrix, Matrix)>,
    ridge: Binary64,
    d: usize,
    h: usize,
    als_iterations: usize,
) -> (r: Option<(Matrix, Matrix)>)
    requires
        d > 0,
        h > 0,
        pairs_shaped(pairs_of(pairs@), d as nat, h as nat),
    ensures
        match (
            r,
            fitted(pairs_of(pairs@), ridge, d as nat, h as nat, als_iterations as nat),
        ) {
            (Some(p), Some(s)) => (entries(p.0@), entries(p.1@)) == s,
            (None, None) => true,
            _ => false,
        },
        r is Some ==> (r->0).0.len() == d && has_width(entries((r->0).0@), d as nat),
        r is Some ==> (r->0).1.len() == h && has_width(entries((r->0).1@), h as nat),
{
    let ghost pp = pairs_of(pairs@);
    let mut a: Matrix = identity(d);
    let mut b: Matrix = identity(h);
    proof {
        assert(entries(a@).len() == d);
        assert(entries(b@).len() == h);
    }
    let ghost goal = alternated(
        pp,
        identity_entries(d as nat),
        identity_entries(h as nat),
        ridge,
        d as nat,
        h as nat,
        als_iterations as nat,
    );
    let mut left: usize = als_iterations;
    while left > 0
        invariant
            d > 0,
            h > 0,
            pp == pairs_of(pairs@),
            pairs_shaped(pp, d as nat, h as nat),
            a.len() == d,
            has_width(entries(a@), d as nat),
            b.len() == h,
            has_width(entries(b@), h as nat),
            goal == alternated(
                pp,
                identity_entries(d as nat),
                identity_entries(h as nat),
                ridge,
                d as nat,
                h as nat,
                als_iterations as nat,
            ),
            goal == alternated(
                pp,
                entries(a@),
                entries(b@),
                ridge,
                d as nat,
                h as nat,
                left as nat,
            ),
        decreases left,
    {
        let (gram, cross): (Matrix, Matrix) = gram_left(pairs, &b, d, h);
        let ridged: Matrix = add_ridge(&gram, ridge);
        proof {
            assert(entries(ridged@).len() == d);
            assert(has_width(entries(ridged@), d as nat));
            assert(entries(ridged@)[0].len() == d);
            assert(entries(cross@)[0].len() == d);
        }
        let rhs: Matrix = transpose(&cross);
        proof {
            assert(entries(rhs@).len() == d);
            assert(has_width(entries(rhs@), d as nat));
            assert(entries(rhs@)[0].len() == d);
        }
        let solved: Matrix = match solve(ridged, rhs) {
            Some(x) => x,
            None => {
                return None;
            },
        };
        proof {
            assert(entries(solved@)[0].len() == d);
        }
        a = transpose(&solved);
        proof {
            assert(entries(a@).len() == d);
        }
        let (gram2, cross2): (Matrix, Matrix) = gram_right(pairs, &a, d, h);
        let ridged2: Matrix = add_ridge(&gram2, ridge);
        proof {
            assert(entries(ridged2@).len() == h);
            assert(has_width(entries(ridged2@), h as nat));
            assert(entries(ridged2@)[0].len() == h);
            assert(entries(cross2@)[0].len() == h);
        }
        b = match solve(ridged2, cross2) {
            Some(x) => x,
            None => {
                return None;
            },
        };
        left = left - 1;
    }
    if entries_finite(&a) && entries_finite(&b) {
        Some((a, b))
    } else {
        None
    }
}

} // verus!
