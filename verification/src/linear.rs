//! Sums, distances and orderings of vectors of numbers.
use vstd::prelude::*;
use crate::float::binary32::Binary32;
use crate::float::binary64::Binary64;

verus! {

/// Negative zero, the neutral element of addition.
pub open spec fn empty_sum32() -> Binary32 {
    Binary32 { bits: 0x8000_0000 }
}

/// Negative zero, the neutral element of addition.
pub open spec fn empty_sum64() -> Binary64 {
    Binary64 { bits: 0x8000_0000_0000_0000 }
}

/// The terms of `s`, added from left to right.
pub open spec fn sum32(s: Seq<Binary32>) -> Binary32
    decreases s.len(),
{
    if s.len() == 0 {
        empty_sum32()
    } else {
        sum32(s.drop_last()).plus(s.last())
    }
}

/// The terms of `s`, added from left to right.
pub open spec fn sum64(s: Seq<Binary64>) -> Binary64
    decreases s.len(),
{
    if s.len() == 0 {
        empty_sum64()
    } else {
        sum64(s.drop_last()).plus(s.last())
    }
}

/// Adds the terms of `s` from left to right.
pub fn total32(s: &[Binary32]) -> (r: Binary32)
    ensures
        r == sum32(s@),
{
    let mut acc: Binary32 = Binary32 { bits: 0x8000_0000 };
    let mut i: usize = 0;
    while i < s.len()
        invariant
            i <= s.len(),
            acc == sum32(s@.take(i as int)),
        decreases s.len() - i,
    {
        acc = acc.add(s[i]);
        proof {
            assert(s@.take(i + 1).drop_last() =~= s@.take(i as int));
        }
        i = i + 1;
    }
    proof {
        assert(s@.take(i as int) =~= s@);
    }
    acc
}

/// `(a[i] - b[i])^2` for each coordinate.
pub open spec fn squared_differences(a: Seq<Binary32>, b: Seq<Binary32>) -> Seq<Binary32> {
    Seq::new(a.len(), |i: int| a[i].minus(b[i]).times(a[i].minus(b[i])))
}

/// The Euclidean distance of two vectors in single precision.
pub open spec fn distance32(a: Seq<Binary32>, b: Seq<Binary32>) -> Binary32 {
    sum32(squared_differences(a, b)).root()
}

/// The Euclidean distance of two vectors in single precision.
pub fn l2_distance(a: &[Binary32], b: &[Binary32]) -> (r: Binary32)
    requires
        a.len() == b.len(),
    ensures
        r == distance32(a@, b@),
{
    let ghost terms = squared_differences(a@, b@);
    let mut acc: Binary32 = Binary32 { bits: 0x8000_0000 };
    let mut i: usize = 0;
    while i < a.len()
        invariant
            i <= a.len(),
            a.len() == b.len(),
            terms == squared_differences(a@, b@),
            acc == sum32(terms.take(i as int)),
        decreases a.len() - i,
    {
        let d: Binary32 = a[i].sub(b[i]);
        acc = acc.add(d.mul(d));
        proof {
            assert(terms.take(i + 1).drop_last() =~= terms.take(i as int));
            assert(terms.take(i + 1).last() == terms[i as int]);
        }
        i = i + 1;
    }
    proof {
        assert(terms.take(i as int) =~= terms);
    }
    acc.sqrt()
}

/// `a[i] * b[i]` for each coordinate.
pub open spec fn products32(a: Seq<Binary32>, b: Seq<Binary32>) -> Seq<Binary32> {
    Seq::new(a.len(), |i: int| a[i].times(b[i]))
}

/// The inner product of two vectors.
pub open spec fn dot32(a: Seq<Binary32>, b: Seq<Binary32>) -> Binary32 {
    sum32(products32(a, b))
}

/// The inner product of two vectors.
pub fn inner_product(a: &[Binary32], b: &[Binary32]) -> (r: Binary32)
    requires
        a.len() == b.len(),
    ensures
        r == dot32(a@, b@),
{
    let ghost terms = products32(a@, b@);
    let mut acc: Binary32 = Binary32 { bits: 0x8000_0000 };
    let mut i: usize = 0;
    while i < a.len()
        invariant
            i <= a.len(),
            a.len() == b.len(),
            terms == products32(a@, b@),
            acc == sum32(terms.take(i as int)),
        decreases a.len() - i,
    {
        acc = acc.add(a[i].mul(b[i]));
        proof {
            assert(terms.take(i + 1).drop_last() =~= terms.take(i as int));
            assert(terms.take(i + 1).last() == terms[i as int]);
        }
        i = i + 1;
    }
    proof {
        assert(terms.take(i as int) =~= terms);
    }
    acc
}

/// The vector of `dim` zeros.
pub open spec fn zeros32(dim: nat) -> Seq<Binary32> {
    Seq::new(dim, |i: int| Binary32::nothing())
}

/// A vector with `value` at each of `dim` places.
pub fn filled32(dim: usize, value: Binary32) -> (r: Vec<Binary32>)
    ensures
        r@ == Seq::new(dim as nat, |i: int| value),
{
    let mut out: Vec<Binary32> = Vec::with_capacity(dim);
    let mut i: usize = 0;
    while i < dim
        invariant
            i <= dim,
            out@ == Seq::new(i as nat, |k: int| value),
        decreases dim - i,
    {
        out.push(value);
        proof {
            assert(out@ =~= Seq::new((i + 1) as nat, |k: int| value));
        }
        i = i + 1;
    }
    out
}

/// A vector with `value` at each of `dim` places.
pub fn filled64(dim: usize, value: Binary64) -> (r: Vec<Binary64>)
    ensures
        r@ == Seq::new(dim as nat, |i: int| value),
{
    let mut out: Vec<Binary64> = Vec::with_capacity(dim);
    let mut i: usize = 0;
    while i < dim
        invariant
            i <= dim,
            out@ == Seq::new(i as nat, |k: int| value),
        decreases dim - i,
    {
        out.push(value);
        proof {
            assert(out@ =~= Seq::new((i + 1) as nat, |k: int| value));
        }
        i = i + 1;
    }
    out
}

/// A copy of a vector.
pub fn copy32(v: &[Binary32]) -> (r: Vec<Binary32>)
    ensures
        r@ == v@,
{
    let mut out: Vec<Binary32> = Vec::with_capacity(v.len());
    let mut i: usize = 0;
    while i < v.len()
        invariant
            i <= v.len(),
            out@ == v@.take(i as int),
        decreases v.len() - i,
    {
        out.push(v[i]);
        proof {
            assert(out@ =~= v@.take(i + 1));
        }
        i = i + 1;
    }
    proof {
        assert(v@.take(i as int) =~= v@);
    }
    out
}


/// `(a[i] - b[i])^2` for each coordinate, in double precision.
pub open spec fn squared_differences64(a: Seq<Binary32>, b: Seq<Binary32>) -> Seq<Binary64> {
    Seq::new(
        a.len(),
        |i: int|
            a[i].as_binary64().minus(b[i].as_binary64()).times(
                a[i].as_binary64().minus(b[i].as_binary64()),
            ),
    )
}

/// The squared Euclidean distance of two vectors in double precision.
pub open spec fn distance_squared64(a: Seq<Binary32>, b: Seq<Binary32>) -> Binary64 {
    sum64(squared_differences64(a, b))
}

/// The squared Euclidean distance of two vectors in double precision.
pub fn squared_distance64(a: &[Binary32], b: &[Binary32]) -> (r: Binary64)
    requires
        a.len() == b.len(),
    ensures
        r == distance_squared64(a@, b@),
{
    let ghost terms = squared_differences64(a@, b@);
    let mut acc: Binary64 = Binary64 { bits: 0x8000_0000_0000_0000 };
    let mut i: usize = 0;
    while i < a.len()
        invariant
            i <= a.len(),
            a.len() == b.len(),
            terms == squared_differences64(a@, b@),
            acc == sum64(terms.take(i as int)),
        decreases a.len() - i,
    {
        let d: Binary64 = a[i].to_binary64().sub(b[i].to_binary64());
        acc = acc.add(d.mul(d));
        proof {
            assert(terms.take(i + 1).drop_last() =~= terms.take(i as int));
            assert(terms.take(i + 1).last() == terms[i as int]);
        }
        i = i + 1;
    }
    proof {
        assert(terms.take(i as int) =~= terms);
    }
    acc
}

/// `a[i] * b[i]` for each coordinate, in double precision.
pub open spec fn products64(a: Seq<Binary32>, b: Seq<Binary32>) -> Seq<Binary64> {
    Seq::new(a.len(), |i: int| a[i].as_binary64().times(b[i].as_binary64()))
}

/// The inner product of two vectors in double precision.
pub open spec fn dot64(a: Seq<Binary32>, b: Seq<Binary32>) -> Binary64 {
    sum64(products64(a, b))
}

/// The inner product of two vectors in double precision.
pub fn inner_product64(a: &[Binary32], b: &[Binary32]) -> (r: Binary64)
    requires
        a.len() == b.len(),
    ensures
        r == dot64(a@, b@),
{
    let ghost terms = products64(a@, b@);
    let mut acc: Binary64 = Binary64 { bits: 0x8000_0000_0000_0000 };
    let mut i: usize = 0;
    while i < a.len()
        invariant
            i <= a.len(),
            a.len() == b.len(),
            terms == products64(a@, b@),
            acc == sum64(terms.take(i as int)),
        decreases a.len() - i,
    {
        acc = acc.add(a[i].to_binary64().mul(b[i].to_binary64()));
        proof {
            assert(terms.take(i + 1).drop_last() =~= terms.take(i as int));
            assert(terms.take(i + 1).last() == terms[i as int]);
        }
        i = i + 1;
    }
    proof {
        assert(terms.take(i as int) =~= terms);
    }
    acc
}

/// The vector of `dim` zeros.
pub open spec fn zeros64(dim: nat) -> Seq<Binary64> {
    Seq::new(dim, |i: int| Binary64::nothing())
}

/// `base[i] + acc[i] / divisor`, computed in double precision.
pub open spec fn plus_quotients(
    base: Seq<Binary32>,
    acc: Seq<Binary64>,
    divisor: Binary64,
) -> Seq<Binary32> {
    Seq::new(
        base.len(),
        |i: int| base[i].as_binary64().plus(acc[i].over(divisor)).as_binary32(),
    )
}

/// Adds `acc`, over `divisor`, to `base`.
pub fn add_quotients(base: &[Binary32], acc: &[Binary64], divisor: Binary64) -> (r: Vec<Binary32>)
    requires
        base.len() == acc.len(),
    ensures
        r@ == plus_quotients(base@, acc@, divisor),
{
    let ghost goal = plus_quotients(base@, acc@, divisor);
    let mut out: Vec<Binary32> = Vec::with_capacity(base.len());
    let mut i: usize = 0;
    while i < base.len()
        invariant
            i <= base.len(),
            base.len() == acc.len(),
            goal == plus_quotients(base@, acc@, divisor),
            out@ == goal.take(i as int),
        decreases base.len() - i,
    {
        out.push(base[i].to_binary64().add(acc[i].div(divisor)).to_binary32());
        proof {
            assert(out@ =~= goal.take(i + 1));
        }
        i = i + 1;
    }
    proof {
        assert(goal.take(i as int) =~= goal);
    }
    out
}

/// `a[i] - b[i]` for each coordinate.
pub open spec fn differences32(a: Seq<Binary32>, b: Seq<Binary32>) -> Seq<Binary32> {
    Seq::new(a.len(), |i: int| a[i].minus(b[i]))
}

/// Subtracts `b` from `a`.
pub fn subtract32(a: &[Binary32], b: &[Binary32]) -> (r: Vec<Binary32>)
    requires
        a.len() == b.len(),
    ensures
        r@ == differences32(a@, b@),
{
    let mut out: Vec<Binary32> = Vec::with_capacity(a.len());
    let mut i: usize = 0;
    while i < a.len()
        invariant
            i <= a.len(),
            a.len() == b.len(),
            out@ == differences32(a@, b@).take(i as int),
        decreases a.len() - i,
    {
        out.push(a[i].sub(b[i]));
        proof {
            assert(out@ =~= differences32(a@, b@).take(i + 1));
        }
        i = i + 1;
    }
    proof {
        assert(differences32(a@, b@).take(i as int) =~= differences32(a@, b@));
    }
    out
}

/// Every coordinate held among the finite numbers.
pub open spec fn held_all(v: Seq<Binary32>) -> Seq<Binary32> {
    Seq::new(v.len(), |i: int| v[i].held())
}

/// Holds every coordinate among the finite numbers.
pub fn hold_all(v: &mut Vec<Binary32>)
    ensures
        final(v)@ == held_all(old(v)@),
{
    let ghost start = v@;
    let mut i: usize = 0;
    while i < v.len()
        invariant
            i <= v.len(),
            v.len() == start.len(),
            forall|k: int| 0 <= k < i ==> #[trigger] v[k] == start[k].held(),
            forall|k: int| i <= k < v.len() ==> #[trigger] v[k] == start[k],
        decreases v.len() - i,
    {
        let x: Binary32 = v[i].hold();
        v.set(i, x);
        i = i + 1;
    }
    proof {
        assert(v@ =~= held_all(start));
    }
}

} // verus!
