//! What the solver behind the forecasts does to a system.
use vstd::prelude::*;
use vstd::arithmetic::power2::*;
use crate::flanders::matrix::{has_width, product_entry, product_of, width, Entries};
use crate::flanders::solve::{cleared, pivot_row, scaled_from, smallest_pivot, solution, solution_from, swapped};
use crate::float::binary64::Binary64;
use crate::float::drift::{far, total, weight};
use crate::float::format::Format;
use crate::float::ieee::{lemma_round_zero, lemma_units_zero};
use crate::float::laws::{lemma_pack, lemma_sizes, lemma_unpack};
use crate::float::magnitude::lemma_units_strictly_monotone;
use crate::float::wide::{lemma_wide_running, pairs64, val64};
use crate::laws::moments::{lemma_signs, lemma_values_ordered};
use crate::trusted::fltrust::is_zero64;

verus! {

/// The pivot has the largest absolute value of its column, from its row on.
pub proof fn pivots_are_largest(m: Entries, col: nat, n: nat, r: int)
    requires
        col <= r < n,
        forall|i: int| col <= i < n ==> !(#[trigger] m[i][col as int]).absolute().nan(),
    ensures
        col <= pivot_row(m, col, n) < n,
        m[r][col as int].absolute().rank() <= m[pivot_row(m, col, n)][col as int].absolute().rank(),
    decreases n,
{
    if n > col + 1 {
        let l = (n - 1) as nat;
        if r < l {
            pivots_are_largest(m, col, l, r);
        } else {
            pivots_are_largest(m, col, l, col as int);
        }
        let best = pivot_row(m, col, l);
        assert(!m[best][col as int].absolute().nan());
        assert(!m[n - 1][col as int].absolute().nan());
    }
}

proof fn lemma_pivot_place(m: Entries, col: nat, n: nat)
    requires
        col < n,
    ensures
        col <= pivot_row(m, col, n) < n,
    decreases n,
{
    if n > col + 1 {
        lemma_pivot_place(m, col, (n - 1) as nat);
    }
}

/// What is not finite stays so.
proof fn lemma_lost(x: Binary64, y: Binary64)
    requires
        !x.finite(),
    ensures
        !x.over(y).finite(),
        !x.minus(y).finite(),
{
    let f = Format::Double;
    reveal(Binary64::finite);
    reveal(Binary64::over);
    reveal(Binary64::plus);
    reveal(Binary64::negated);
    lemma_sizes(f);
    let (a, b) = (x.bits as nat, y.bits as nat);
    lemma_unpack(f, a);
    lemma_unpack(f, b);
    lemma_pack(f, true, f.inf());
    lemma_pack(f, false, f.inf());
    lemma_pack(f, !f.negative(b), f.magnitude(b));
}

/// A zero over a number that is not zero is zero, unless that is a NaN.
proof fn lemma_zero_over(x: Binary64, d: Binary64)
    requires
        x.finite(),
        x.rank() == 0,
        d.finite() ==> d.rank() != 0,
    ensures
        x.over(d).finite() ==> x.over(d).rank() == 0,
{
    let f = Format::Double;
    reveal(Binary64::finite);
    reveal(Binary64::rank);
    reveal(Binary64::over);
    lemma_sizes(f);
    lemma_units_zero(f);
    let (a, b) = (x.bits as nat, d.bits as nat);
    lemma_unpack(f, a);
    lemma_unpack(f, b);
    lemma_pack(f, true, 0);
    lemma_pack(f, false, 0);
    if f.is_finite(b) {
        lemma_units_strictly_monotone(f, 0, f.magnitude(b));
        lemma_round_zero(f, f.units(f.magnitude(b)));
        assert(0 * pow2(f.one_exp()) == 0);
    }
}

/// A multiple of zero taken off changes nothing that matters here.
proof fn lemma_nothing_taken(x: Binary64, factor: Binary64, zero: Binary64)
    requires
        x.finite(),
        zero.finite(),
        zero.rank() == 0,
        x.rank() == 0 || x == Binary64::unit(),
    ensures
        x.minus(factor.times(zero)).finite() ==> x.minus(factor.times(zero)).rank() == x.rank(),
        x.minus(factor.times(zero)).finite() && x == Binary64::unit() ==> x.minus(
            factor.times(zero),
        ) == x,
{
    let f = Format::Double;
    let y = factor.times(zero);
    reveal(Binary64::rank);
    lemma_sizes(f);
    lemma_units_zero(f);
    let (a, b, c) = (factor.bits as nat, zero.bits as nat, x.bits as nat);
    lemma_unpack(f, a);
    lemma_unpack(f, b);
    lemma_unpack(f, c);
    lemma_pack(f, true, 0);
    lemma_pack(f, false, 0);
    if factor.finite() {
        assert(y.finite() && y.rank() == 0) by {
            reveal(Binary64::finite);
            reveal(Binary64::times);
            lemma_pow2_pos(f.one_exp());
            lemma_round_zero(f, pow2(f.one_exp()));
            let s = f.units(f.magnitude(a));
            assert(s * 0 == 0);
        }
        let z = y.negated();
        assert(z.finite() && z.rank() == 0) by {
            reveal(Binary64::finite);
            reveal(Binary64::negated);
            lemma_unpack(f, y.bits as nat);
        }
        if x == Binary64::unit() {
            Binary64::unit().unsigned_patterns();
            x.zero_adds_nothing(z);
            x.minus(y).ranks_tell_apart(x);
        } else {
            reveal(Binary64::finite);
            reveal(Binary64::plus);
            lemma_unpack(f, z.bits as nat);
        }
    } else {
        assert(!x.minus(y).finite()) by {
            reveal(Binary64::finite);
            reveal(Binary64::times);
            reveal(Binary64::plus);
            reveal(Binary64::negated);
            let d = y.bits as nat;
            assert(f.is_nan(d));
            lemma_unpack(f, d);
            lemma_pack(f, !f.negative(d), f.magnitude(d));
        }
    }
}

/// A pivot that is not too small is not zero.
proof fn lemma_not_zero(d: Binary64)
    requires
        !d.absolute().below(smallest_pivot()),
    ensures
        d.finite() ==> d.rank() != 0,
{
    let f = Format::Double;
    smallest_pivot().unsigned_patterns();
    smallest_pivot().finite_is_a_number();
    if d.finite() && d.rank() == 0 {
        reveal(Binary64::finite);
        reveal(Binary64::rank);
        reveal(Binary64::absolute);
        reveal(Binary64::nan);
        lemma_sizes(f);
        lemma_unpack(f, d.bits as nat);
        lemma_unpack(f, 0);
        assert(false);
    }
}

/// A number less itself times one.
proof fn lemma_taken_off(x: Binary64)
    requires
        !is_zero64(x),
    ensures
        x.minus(x.times(Binary64::unit())).finite() ==> x.minus(
            x.times(Binary64::unit()),
        ).rank() == 0,
{
    if x.finite() {
        x.one_scales_nothing();
        x.itself_less_itself();
        Binary64::nothing().zeros();
    } else {
        lemma_lost(x, x.times(Binary64::unit()));
    }
}

proof fn lemma_zero_entry(x: Binary64)
    requires
        is_zero64(x),
    ensures
        x.finite(),
        x.rank() == 0,
{
    Binary64::nothing().zeros();
    Binary64::nothing().finite_is_a_number();
    x.between_finite(Binary64::nothing(), Binary64::nothing());
}

/// Whether column `j` is one at row `c` and zero elsewhere.
pub open spec fn is_unit_column(x: Entries, j: int, c: int) -> bool {
    forall|r: int|
        0 <= r < x.len() ==> (#[trigger] x[r])[j].finite() && if r == c {
            x[r][j] == Binary64::unit()
        } else {
            x[r][j].rank() == 0
        }
}

/// Whether column `j` has left the finite numbers.
spec fn is_lost(x: Entries, j: int) -> bool {
    exists|r: int| 0 <= r < x.len() && !(#[trigger] x[r])[j].finite()
}

/// Whether `rhs` and `m` are of `n` rows, long enough for columns `j` and `n`.
spec fn is_system(m: Entries, rhs: Entries, j: int, n: nat) -> bool {
    &&& m.len() == n
    &&& rhs.len() == n
    &&& has_width(m, n)
    &&& 0 <= j
    &&& forall|r: int| 0 <= r < n ==> j < (#[trigger] rhs[r]).len()
}

/// A step keeps the shape of a system.
proof fn lemma_step_shape(m: Entries, rhs: Entries, j: int, n: nat, col: int, p: int)
    requires
        is_system(m, rhs, j, n),
        0 <= col < n,
        0 <= p < n,
    ensures
        ({
            let ms = swapped(m, col, p);
            let rs = swapped(rhs, col, p);
            is_system(ms, rs, j, n) && is_system(
                cleared(ms, ms, col, col),
                cleared(ms, rs, col, 0),
                j,
                n,
            )
        }),
{
    let ms = swapped(m, col, p);
    let rs = swapped(rhs, col, p);
    assert(m[col].len() == n && m[p].len() == n);
    assert(j < rhs[col].len() && j < rhs[p].len());
    assert forall|r: int| 0 <= r < n implies (#[trigger] ms[r]).len() == n by {
        assert(m[r].len() == n);
    }
    assert forall|r: int| 0 <= r < n implies j < (#[trigger] rs[r]).len() by {
        assert(j < rhs[r].len());
    }
    let (a, b) = (cleared(ms, ms, col, col), cleared(ms, rs, col, 0));
    assert forall|r: int| 0 <= r < n implies (#[trigger] a[r]).len() == n by {
        assert(ms[r].len() == n);
    }
    assert forall|r: int| 0 <= r < n implies j < (#[trigger] b[r]).len() by {
        assert(j < rs[r].len());
    }
}

/// What is lost stays lost in a step.
proof fn lemma_step_lost(m: Entries, rhs: Entries, j: int, n: nat, col: int, p: int)
    requires
        is_system(m, rhs, j, n),
        0 <= col < n,
        0 <= p < n,
        is_lost(rhs, j),
    ensures
        is_lost(cleared(swapped(m, col, p), swapped(rhs, col, p), col, 0), j),
{
    lemma_step_shape(m, rhs, j, n, col, p);
    let ms = swapped(m, col, p);
    let rs = swapped(rhs, col, p);
    let r = choose|r: int| 0 <= r < rhs.len() && !(#[trigger] rhs[r])[j].finite();
    let s = if r == col {
        p
    } else if r == p {
        col
    } else {
        r
    };
    assert(rs[s] == rhs[r]);
    lemma_cleared_lost(ms, rs, j, n, col, s);
}

proof fn lemma_cleared_lost(m: Entries, rhs: Entries, j: int, n: nat, col: int, s: int)
    requires
        is_system(m, rhs, j, n),
        0 <= col < n,
        0 <= s < n,
        !rhs[s][j].finite(),
    ensures
        is_lost(cleared(m, rhs, col, 0), j),
{
    let d = m[col][col];
    let pivot = scaled_from(rhs[col], d, 0);
    let out = cleared(m, rhs, col, 0);
    assert(j < rhs[s].len() && j < rhs[col].len());
    lemma_lost(rhs[s][j], d);
    lemma_lost(rhs[s][j], m[s][col].times(pivot[j]));
    assert(!out[s][j].finite());
}

/// After its own step a unit column stays one, or is lost.
proof fn lemma_step_unit(m: Entries, rhs: Entries, j: int, c: int, n: nat, col: int, p: int)
    requires
        is_system(m, rhs, j, n),
        0 <= c < col < n,
        col <= p < n,
        is_unit_column(rhs, j, c),
        !m[p][col].absolute().below(smallest_pivot()),
    ensures
        ({
            let out = cleared(swapped(m, col, p), swapped(rhs, col, p), col, 0);
            is_unit_column(out, j, c) || is_lost(out, j)
        }),
{
    lemma_step_shape(m, rhs, j, n, col, p);
    let ms = swapped(m, col, p);
    let rs = swapped(rhs, col, p);
    let d = ms[col][col];
    assert(d == m[p][col]);
    lemma_not_zero(d);
    let pivot = scaled_from(rs[col], d, 0);
    let out = cleared(ms, rs, col, 0);
    assert(rhs[p][j].finite() && rhs[col][j].finite());
    assert forall|r: int| 0 <= r < n implies (#[trigger] rs[r])[j].finite() && if r == c {
        rs[r][j] == Binary64::unit()
    } else {
        rs[r][j].rank() == 0
    } by {
        assert(rhs[r][j].finite());
    }
    assert(rs[col][j].finite());
    assert(j < rs[col].len());
    lemma_zero_over(rs[col][j], d);
    if !is_lost(out, j) {
        assert(out[col][j].finite());
        assert(pivot[j].finite() && pivot[j].rank() == 0);
        assert forall|r: int| 0 <= r < n implies (#[trigger] out[r])[j].finite() && if r == c {
            out[r][j] == Binary64::unit()
        } else {
            out[r][j].rank() == 0
        } by {
            assert(out[r][j].finite());
            assert(rs[r][j].finite());
            assert(j < rs[r].len());
            if r != col && !is_zero64(ms[r][col]) {
                lemma_nothing_taken(rs[r][j], ms[r][col], pivot[j]);
            }
        }
    }
}

/// The step of a column turns it into a unit column, and with it whatever
/// equals it on the right-hand side, or loses it.
proof fn lemma_step_own(m: Entries, rhs: Entries, j: int, n: nat, col: int, p: int)
    requires
        is_system(m, rhs, j, n),
        0 <= col < n,
        col <= p < n,
        forall|r: int| 0 <= r < n ==> (#[trigger] rhs[r])[j] == m[r][col],
        !m[p][col].absolute().below(smallest_pivot()),
    ensures
        ({
            let out = cleared(swapped(m, col, p), swapped(rhs, col, p), col, 0);
            is_unit_column(out, j, col) || is_lost(out, j)
        }),
{
    lemma_step_shape(m, rhs, j, n, col, p);
    let ms = swapped(m, col, p);
    let rs = swapped(rhs, col, p);
    let d = ms[col][col];
    assert(d == m[p][col]);
    lemma_not_zero(d);
    assert forall|r: int| 0 <= r < n implies (#[trigger] rs[r])[j] == ms[r][col] by {
        assert(rhs[r][j] == m[r][col]);
        assert(rhs[p][j] == m[p][col]);
        assert(rhs[col][j] == m[col][col]);
    }
    assert(rs[col][j] == d);
    assert(j < rs[col].len());
    let pivot = scaled_from(rs[col], d, 0);
    let out = cleared(ms, rs, col, 0);
    if !d.finite() {
        lemma_cleared_lost(ms, rs, j, n, col, col);
    } else {
        d.itself_over_itself();
        Binary64::unit().unsigned_patterns();
        assert(pivot[j] == Binary64::unit());
        if !is_lost(out, j) {
            assert forall|r: int| 0 <= r < n implies (#[trigger] out[r])[j].finite() && if r
                == col {
                out[r][j] == Binary64::unit()
            } else {
                out[r][j].rank() == 0
            } by {
                assert(out[r][j].finite());
                assert(rs[r][j] == ms[r][col]);
                assert(j < rs[r].len());
                if r != col {
                    if is_zero64(ms[r][col]) {
                        lemma_zero_entry(ms[r][col]);
                    } else {
                        lemma_taken_off(ms[r][col]);
                    }
                }
            }
        }
    }
}

/// The steps that follow.
proof fn lemma_after(m: Entries, rhs: Entries, j: int, c: int, col: nat, n: nat)
    requires
        is_system(m, rhs, j, n),
        0 <= c < col <= n,
        is_unit_column(rhs, j, c) || is_lost(rhs, j),
        solution_from(m, rhs, col, n) is Some,
    ensures
        ({
            let x = solution_from(m, rhs, col, n)->0;
            x.len() == n && (is_unit_column(x, j, c) || is_lost(x, j)) && (forall|r: int|
                0 <= r < n ==> j < (#[trigger] x[r]).len())
        }),
    decreases n - col,
{
    if col < n {
        let p = pivot_row(m, col, n);
        lemma_pivot_place(m, col, n);
        lemma_step_shape(m, rhs, j, n, col as int, p);
        let ms = swapped(m, col as int, p);
        let rs = swapped(rhs, col as int, p);
        if is_lost(rhs, j) {
            lemma_step_lost(m, rhs, j, n, col as int, p);
        } else {
            lemma_step_unit(m, rhs, j, c, n, col as int, p);
        }
        lemma_after(
            cleared(ms, ms, col as int, col as int),
            cleared(ms, rs, col as int, 0),
            j,
            c,
            col + 1,
            n,
        );
    }
}

/// The steps before: what equals a column goes on to equal it.
proof fn lemma_before(m: Entries, rhs: Entries, j: int, c: int, col: nat, n: nat)
    requires
        is_system(m, rhs, j, n),
        0 <= col <= c < n,
        forall|r: int| 0 <= r < n ==> (#[trigger] rhs[r])[j] == m[r][c],
        solution_from(m, rhs, col, n) is Some,
    ensures
        ({
            let x = solution_from(m, rhs, col, n)->0;
            x.len() == n && (is_unit_column(x, j, c) || is_lost(x, j)) && (forall|r: int|
                0 <= r < n ==> j < (#[trigger] x[r]).len())
        }),
    decreases n - col,
{
    let p = pivot_row(m, col, n);
    let k = col as int;
    lemma_pivot_place(m, col, n);
    lemma_step_shape(m, rhs, j, n, k, p);
    let ms = swapped(m, k, p);
    let rs = swapped(rhs, k, p);
    let (a, b) = (cleared(ms, ms, k, k), cleared(ms, rs, k, 0));
    if col == c {
        lemma_step_own(m, rhs, j, n, k, p);
        lemma_after(a, b, j, c, col + 1, n);
    } else {
        assert forall|r: int| 0 <= r < n implies (#[trigger] rs[r])[j] == ms[r][c] by {
            assert(rhs[r][j] == m[r][c]);
            assert(rhs[p][j] == m[p][c]);
            assert(rhs[k][j] == m[k][c]);
        }
        assert(rs[k][j] == ms[k][c]);
        assert(j < rs[k].len() && ms[k].len() == n);
        assert forall|r: int| 0 <= r < n implies (#[trigger] b[r])[j] == a[r][c] by {
            assert(rs[r][j] == ms[r][c]);
            assert(j < rs[r].len() && ms[r].len() == n);
        }
        lemma_before(a, b, j, c, col + 1, n);
    }
}

/// A system whose right-hand side is one of its own columns has that column
/// for its solution, exactly: one there, and zero elsewhere. So what is done
/// to the matrix is done to the right-hand side, and clears it.
pub proof fn systems_are_solved_by_their_own_columns(m: Entries, rhs: Entries, j: int, c: int)
    requires
        has_width(m, m.len()),
        0 <= c < m.len(),
        rhs.len() == m.len(),
        0 <= j,
        forall|r: int| 0 <= r < rhs.len() ==> j < (#[trigger] rhs[r]).len(),
        forall|r: int| 0 <= r < rhs.len() ==> (#[trigger] rhs[r])[j] == m[r][c],
        solution(m, rhs) is Some,
    ensures
        is_unit_column(solution(m, rhs)->0, j, c),
{
    assert(m[0].len() == m.len());
    lemma_before(m, rhs, j, c, 0, m.len());
    let x = solution(m, rhs)->0;
    if is_lost(x, j) {
        let r = choose|r: int| 0 <= r < x.len() && !(#[trigger] x[r])[j].finite();
        assert(j < x[r].len());
        assert(x[r][j].finite());
    }
}

/// Column `j` of the right factor.
pub open spec fn column_at(b: Entries, j: int) -> Seq<Binary64> {
    Seq::new(b.len(), |k: int| b[k][j])
}

/// An entry of a product is the row of the left factor times the column of the
/// right one, but for roundings.
pub proof fn product_entries_are_rows_times_columns(a: Entries, b: Entries, i: int, j: int)
    requires
        0 <= i < a.len(),
        0 <= j < width(b),
        a[i].len() == b.len() <= 0x10_0000,
        forall|k: int| 0 <= k < b.len() ==> (#[trigger] a[i][k]).finite() && b[k][j].finite(),
        weight(pairs64(a[i], column_at(b, j))) <= pow2(2070) * pow2(1074),
    ensures
        product_of(a, b)[i][j].finite(),
        0x20_0000_0000_0000 * far(
            val64(product_of(a, b)[i][j]) * pow2(1074) - total(
                pairs64(a[i], column_at(b, j)),
            ),
        ) <= (4 * b.len()) * weight(pairs64(a[i], column_at(b, j))) + (b.len()
            * 0x20_0000_0000_0000) * pow2(1074),
{
    let n = b.len();
    let (x, y) = (a[i], column_at(b, j));
    let acc = Seq::new(n + 1, |k: int| product_entry(a, b, i, j, k as nat));
    lemma_signs();
    assert forall|k: int| 0 <= k < n implies #[trigger] acc[k + 1] == acc[k].plus(
        x[k].times(y[k]),
    ) || (val64(x[k]) == 0 && acc[k + 1] == acc[k]) by {
        assert(a[i][k].finite());
        if is_zero64(x[k]) {
            lemma_values_ordered(x[k], Binary64::nothing());
            lemma_values_ordered(Binary64::nothing(), x[k]);
        }
    }
    assert forall|k: int| 0 <= k < n implies (#[trigger] x[k]).finite() && y[k].finite() by {
        assert(a[i][k].finite());
    }
    lemma_wide_running(acc, x, y, n);
    assert(pairs64(x, y).take(n as int) =~= pairs64(x, y));
}

} // verus!
