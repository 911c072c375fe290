//! How long vectors are, but for roundings.
//!
//! A vector is taken by the sizes of its coordinates, in units, and its length
//! by the square of it, which is a whole number.
use vstd::prelude::*;
use vstd::arithmetic::power2::*;
use vstd::arithmetic::mul::*;
use crate::float::binary64::Binary64;
use crate::float::format::Format;
use crate::float::scale::{lemma_product_up_to, lemma_sum_up_to, lemma_zero_up_to, size, up_to};
use crate::float::slip::{lemma_nearly_at_most, lemma_nearly_cancelled, lemma_nearly_chain, lemma_nearly_more, lemma_nearly_product, lemma_nearly_scaled, lemma_nearly_sum, lemma_nearly_zero, lemma_plus_slip, lemma_square_root_slip, lemma_times_slip, nearly};
use crate::float::twice::lemma_size_zero;
use crate::laws::confidence::lemma_empty_sum64;
use crate::linear::{empty_sum64, sum64};

verus! {

/// The square of the length of a vector.
pub open spec fn square(x: Seq<nat>) -> nat
    decreases x.len(),
{
    if x.len() == 0 {
        0
    } else {
        square(x.drop_last()) + x.last() * x.last()
    }
}

/// The sizes of the coordinates of a vector.
pub open spec fn sizes(x: Seq<Binary64>) -> Seq<nat> {
    Seq::new(x.len(), |i: int| size(x[i]))
}

/// Coordinates that are each nearly at most a multiple make a vector that is.
pub proof fn lemma_scaled_length(f: Format, k: Seq<nat>, x: Seq<nat>, d: nat, t: nat, l: nat)
    requires
        k.len() == x.len(),
        forall|j: int| 0 <= j < k.len() ==> nearly(f, #[trigger] k[j] * d, x[j] * t, l),
    ensures
        nearly(f, square(k) * (d * d), square(x) * (t * t), l + l),
    decreases k.len(),
{
    if k.len() == 0 {
        assert(0 * (d * d) == 0 && 0 * (t * t) == 0) by (nonlinear_arith);
        lemma_nearly_at_most(f, 0, 0, l + l);
    } else {
        let (a, b) = (k.drop_last(), x.drop_last());
        assert forall|j: int| 0 <= j < a.len() implies nearly(f, #[trigger] a[j] * d, b[j] * t, l) by {
            assert(nearly(f, k[j] * d, x[j] * t, l));
        }
        lemma_scaled_length(f, a, b, d, t, l);
        let (p, q) = (k.last(), x.last());
        assert(nearly(f, k[k.len() - 1] * d, x[k.len() - 1] * t, l));
        lemma_nearly_product(f, p * d, q * t, p * d, q * t, l, l);
        assert((p * d) * (p * d) == (p * p) * (d * d)) by (nonlinear_arith);
        assert((q * t) * (q * t) == (q * q) * (t * t)) by (nonlinear_arith);
        let (sa, sb, dd, tt) = (square(a), square(b), d * d, t * t);
        lemma_nearly_sum(f, sa * dd, sb * tt, (p * p) * dd, (q * q) * tt, l + l);
        assert((sa + p * p) * dd == sa * dd + (p * p) * dd) by (nonlinear_arith);
        assert((sb + q * q) * tt == sb * tt + (q * q) * tt) by (nonlinear_arith);
    }
}

/// The coordinates of two vectors, added up.
pub open spec fn added(s: Seq<nat>, x: Seq<nat>) -> Seq<nat> {
    Seq::new(s.len(), |j: int| s[j] + x[j])
}

/// What one coordinate adds to the square of a sum.
proof fn lemma_one_coordinate(a: nat, b: nat, p: nat, q: nat)
    ensures
        (a * b) * ((p + q) * (p + q)) <= (a + b) * (b * (p * p) + a * (q * q)),
{
    let (pp, qq, pq, ab) = (p * p, q * q, p * q, a * b);
    assert((a + b) * (b * pp + a * qq) == ab * pp + (a * a) * qq + (b * b) * pp + ab * qq)
        by (nonlinear_arith)
        requires
            ab == a * b,
    ;
    assert((p + q) * (p + q) == pp + 2 * pq + qq) by (nonlinear_arith)
        requires
            pp == p * p,
            qq == q * q,
            pq == p * q,
    ;
    assert(ab * (pp + 2 * pq + qq) == ab * pp + 2 * (ab * pq) + ab * qq) by (nonlinear_arith);
    let (x, y) = (b * p, a * q);
    assert(x * x + y * y >= 2 * (x * y)) by (nonlinear_arith);
    assert(x * x == (b * b) * pp) by (nonlinear_arith)
        requires
            x == b * p,
            pp == p * p,
    ;
    assert(y * y == (a * a) * qq) by (nonlinear_arith)
        requires
            y == a * q,
            qq == q * q,
    ;
    assert(x * y == ab * pq) by (nonlinear_arith)
        requires
            x == b * p,
            y == a * q,
            ab == a * b,
            pq == p * q,
    ;
}

proof fn lemma_added_parts(s: Seq<nat>, x: Seq<nat>, a: nat, b: nat)
    requires
        s.len() == x.len(),
    ensures
        (a * b) * square(added(s, x)) <= (a + b) * (b * square(s) + a * square(x)),
    decreases s.len(),
{
    if s.len() == 0 {
        assert((a * b) * 0 == 0 && b * 0 == 0 && a * 0 == 0 && (a + b) * 0 == 0)
            by (nonlinear_arith);
    } else {
        let (s0, x0) = (s.drop_last(), x.drop_last());
        lemma_added_parts(s0, x0, a, b);
        assert(added(s, x).drop_last() =~= added(s0, x0));
        let (p, q) = (s.last(), x.last());
        lemma_one_coordinate(a, b, p, q);
        let (u, v, w) = (square(s0), square(x0), square(added(s0, x0)));
        let (pp, qq, rr, ab, c) = (p * p, q * q, (p + q) * (p + q), a * b, a + b);
        assert(ab * (w + rr) == ab * w + ab * rr) by (nonlinear_arith);
        assert(b * (u + pp) == b * u + b * pp && a * (v + qq) == a * v + a * qq)
            by (nonlinear_arith);
        let (m, n) = (b * u + a * v, b * pp + a * qq);
        assert(c * (m + n) == c * m + c * n) by (nonlinear_arith);
    }
}

/// A vector without length is zero everywhere.
proof fn lemma_no_length(s: Seq<nat>, j: int)
    requires
        square(s) == 0,
        0 <= j < s.len(),
    ensures
        s[j] == 0,
    decreases s.len(),
{
    let p = s.last();
    assert(p == 0) by (nonlinear_arith)
        requires
            p * p <= 0,
            p >= 0,
    ;
    if j < s.len() - 1 {
        assert(square(s.drop_last()) == 0);
        lemma_no_length(s.drop_last(), j);
        assert(s.drop_last()[j] == s[j]);
    }
}

/// Vectors nearly no longer than `a` and `b` have a sum nearly no longer than
/// `a + b`, in the measure of which `w` makes one of the squares, `bound` the
/// other.
pub proof fn lemma_added_length(
    f: Format,
    y: Seq<nat>,
    s: Seq<nat>,
    x: Seq<nat>,
    a: nat,
    b: nat,
    w: nat,
    bound: nat,
    m: nat,
)
    requires
        s.len() == x.len(),
        y.len() == s.len(),
        w > 0,
        nearly(f, square(s) * w, (a * a) * bound, m),
        nearly(f, square(x) * w, (b * b) * bound, m),
        forall|j: int| 0 <= j < y.len() ==> nearly(f, #[trigger] y[j], s[j] + x[j], 1),
    ensures
        nearly(f, square(y) * w, ((a + b) * (a + b)) * bound, m + 2),
{
    let z = added(s, x);
    // the exact sum
    assert(nearly(f, square(z) * w, ((a + b) * (a + b)) * bound, m)) by {
        lemma_exact_length(f, s, x, a, b, w, bound, m);
    }
    // the rounded one
    assert forall|j: int| 0 <= j < y.len() implies nearly(f, #[trigger] y[j] * 1, z[j] * 1, 1) by {
        assert(nearly(f, y[j], s[j] + x[j], 1));
        assert(y[j] * 1 == y[j] && z[j] * 1 == z[j]);
    }
    lemma_scaled_length(f, y, z, 1, 1, 1);
    let (sy, sz) = (square(y), square(z));
    assert(sy * (1 * 1) == sy && sz * (1 * 1) == sz) by (nonlinear_arith);
    lemma_nearly_scaled(f, sy, sz, w, 2);
    lemma_nearly_chain(f, sy * w, sz * w, ((a + b) * (a + b)) * bound, 2, m);
}

proof fn lemma_exact_length(
    f: Format,
    s: Seq<nat>,
    x: Seq<nat>,
    a: nat,
    b: nat,
    w: nat,
    bound: nat,
    m: nat,
)
    requires
        s.len() == x.len(),
        w > 0,
        nearly(f, square(s) * w, (a * a) * bound, m),
        nearly(f, square(x) * w, (b * b) * bound, m),
    ensures
        nearly(f, square(added(s, x)) * w, ((a + b) * (a + b)) * bound, m),
{
    let z = added(s, x);
    let (u, v, t) = (square(s), square(x), square(z));
    let c = a + b;
    if a == 0 || b == 0 {
        // one of the two is zero
        let (zero, other) = if a == 0 {
            (s, x)
        } else {
            (x, s)
        };
        let e = square(zero);
        assert(a == 0 ==> (a * a) * bound == 0) by (nonlinear_arith);
        assert(b == 0 ==> (b * b) * bound == 0) by (nonlinear_arith);
        lemma_nearly_zero(f, e * w, m);
        if e > 0 {
            lemma_mul_strictly_positive(e as int, w as int);
        }
        assert forall|j: int| 0 <= j < z.len() implies z[j] == other[j] by {
            lemma_no_length(zero, j);
        }
        assert(z =~= other);
    } else {
        lemma_added_parts(s, x, a, b);
        let (ab, aab, bbb) = (a * b, (a * a) * bound, (b * b) * bound);
        lemma_nearly_scaled(f, u * w, aab, b, m);
        lemma_nearly_scaled(f, v * w, bbb, a, m);
        lemma_nearly_sum(f, b * (u * w), b * aab, a * (v * w), a * bbb, m);
        lemma_nearly_scaled(f, b * (u * w) + a * (v * w), b * aab + a * bbb, c, m);
        let mixed = b * u + a * v;
        lemma_mul_inequality((ab * t) as int, (c * mixed) as int, w as int);
        assert((c * mixed) * w == c * (b * (u * w) + a * (v * w))) by (nonlinear_arith)
            requires
                mixed == b * u + a * v,
        ;
        lemma_nearly_at_most(f, (ab * t) * w, (c * mixed) * w, 0);
        lemma_nearly_chain(f, (ab * t) * w, (c * mixed) * w, c * (b * aab + a * bbb), 0, m);
        let goal = (c * c) * bound;
        assert(b * aab + a * bbb == (ab * c) * bound) by (nonlinear_arith)
            requires
                aab == (a * a) * bound,
                bbb == (b * b) * bound,
                ab == a * b,
                c == a + b,
        ;
        assert(c * ((ab * c) * bound) == goal * ab) by (nonlinear_arith)
            requires
                goal == (c * c) * bound,
        ;
        assert((ab * t) * w == (t * w) * ab) by (nonlinear_arith);
        lemma_mul_strictly_positive(a as int, b as int);
        lemma_nearly_cancelled(f, t * w, goal, ab, m);
    }
}

/// The coordinates, each times itself.
pub open spec fn squares(x: Seq<Binary64>) -> Seq<Binary64> {
    Seq::new(x.len(), |i: int| x[i].times(x[i]))
}

/// Whether a number is zero, or neither tiny nor huge.
pub open spec fn is_plain(x: Binary64) -> bool {
    up_to(x, 1256) && (size(x) == 0 || size(x) >= pow2(600))
}

/// Sizes of at least two powers of two have a product of at least theirs.
pub proof fn lemma_large_product(x: nat, y: nat, a: nat, b: nat, c: nat)
    requires
        x >= pow2(a),
        y >= pow2(b),
        a + b >= c,
    ensures
        x * y >= pow2(c),
{
    lemma_pow2_adds(a, b);
    if a + b > c {
        lemma_pow2_strictly_increases(c, a + b);
    }
    lemma_mul_upper_bound(pow2(a) as int, x as int, pow2(b) as int, y as int);
}

/// The sum of the squares in double precision is not much below the exact one.
proof fn lemma_squares(x: Seq<Binary64>)
    requires
        forall|i: int| 0 <= i < x.len() ==> is_plain(#[trigger] x[i]),
    ensures
        up_to(sum64(squares(x)), 1492),
        0 <= sum64(squares(x)).rank(),
        nearly(
            Format::Double,
            square(sizes(x)),
            size(sum64(squares(x))) * pow2(1074),
            2 * x.len() + 2,
        ),
    decreases x.len(),
{
    let f = Format::Double;
    let s = squares(x);
    let w = pow2(1074);
    if x.len() == 0 {
        lemma_empty_sum64();
        lemma_zero_up_to(empty_sum64(), 1492);
        lemma_nearly_at_most(f, 0, size(empty_sum64()) * w, 2);
    } else {
        let rest = x.drop_last();
        let k = rest.len();
        assert forall|i: int| 0 <= i < rest.len() implies is_plain(#[trigger] rest[i]) by {
            assert(is_plain(x[i]));
        }
        lemma_squares(rest);
        assert(s.drop_last() =~= squares(rest));
        assert(sizes(x).drop_last() =~= sizes(rest));
        let y = x.last();
        assert(is_plain(x[x.len() - 1]));
        let (before, p, after) = (sum64(squares(rest)), y.times(y), sum64(s));
        lemma_product_up_to(y, y, 1256, 1256);
        lemma_sum_up_to(before, p, 1438);
        if size(y) != 0 {
            lemma_large_product(size(y), size(y), 600, 600, 1127);
        }
        lemma_times_slip(y, y);
        y.finite_is_a_number();
        y.square_is_not_negative();
        before.finite_is_a_number();
        before.lengths_add_up(p);
        lemma_plus_slip(before, p);
        let (a, b, q) = (size(before), size(p), size(y) * size(y));
        let l = 2 * k + 2;
        lemma_nearly_more(f, q, b * w, 2, l);
        lemma_nearly_sum(f, square(sizes(rest)), a * w, q, b * w, l);
        assert((a + b) * w == a * w + b * w) by (nonlinear_arith);
        lemma_nearly_scaled(f, a + b, size(after), w, 2);
        lemma_nearly_chain(f, square(sizes(x)), (a + b) * w, size(after) * w, l, 2);
        assert(2 * x.len() + 2 == l + 2);
    }
}

/// The length in double precision is not much below the exact one, and zero
/// only where that is.
pub proof fn lemma_length_covers(x: Seq<Binary64>)
    requires
        forall|i: int| 0 <= i < x.len() ==> is_plain(#[trigger] x[i]),
        sum64(squares(x)).root().finite(),
    ensures
        nearly(
            Format::Double,
            square(sizes(x)),
            size(sum64(squares(x)).root()) * size(sum64(squares(x)).root()),
            2 * x.len() + 7,
        ),
{
    let f = Format::Double;
    lemma_squares(x);
    let d = sum64(squares(x));
    let (l, r) = (2 * x.len() + 2, size(d.root()));
    lemma_size_zero(d);
    if d.rank() == 0 {
        assert(0 * pow2(1074) == 0);
        lemma_nearly_zero(f, square(sizes(x)), l);
        lemma_nearly_at_most(f, 0, r * r, l + 5);
    } else {
        lemma_square_root_slip(d);
        lemma_nearly_chain(f, square(sizes(x)), size(d) * pow2(1074), r * r, l, 5);
    }
}

} // verus!
