//! Small dense matrices of double-precision numbers.
use vstd::prelude::*;
use crate::float::binary64::Binary64;
use crate::linear::{filled64, zeros64};
use crate::trusted::fltrust::is_zero64;

verus! {

/// A dense matrix, row by row.
pub type Matrix = Vec<Vec<Binary64>>;

/// The entries of a matrix.
pub type Entries = Seq<Seq<Binary64>>;

/// The entries of a matrix.
pub open spec fn entries(m: Seq<Vec<Binary64>>) -> Entries {
    Seq::new(m.len(), |i: int| m[i]@)
}

/// Whether every row is `cols` long.
pub open spec fn has_width(m: Entries, cols: nat) -> bool {
    forall|i: int| 0 <= i < m.len() ==> (#[trigger] m[i]).len() == cols
}

/// How long the first row is; none where there is no row.
pub open spec fn width(m: Entries) -> nat {
    if m.len() == 0 {
        0
    } else {
        m[0].len()
    }
}

/// The matrix with `f(i, j)` at row `i`, column `j`.
pub open spec fn tabulated(rows: nat, cols: nat, f: spec_fn(int, int) -> Binary64) -> Entries {
    Seq::new(rows, |i: int| Seq::new(cols, |j: int| f(i, j)))
}

/// The identity matrix.
pub open spec fn identity_entries(n: nat) -> Entries {
    tabulated(
        n,
        n,
        |i: int, j: int| if i == j { Binary64::unit() } else { Binary64::nothing() },
    )
}

/// A matrix of zeros.
pub open spec fn zero_entries(rows: nat, cols: nat) -> Entries {
    tabulated(rows, cols, |i: int, j: int| Binary64::nothing())
}

/// A matrix of zeros.
pub fn zeros(rows: usize, cols: usize) -> (r: Matrix)
    ensures
        entries(r@) == zero_entries(rows as nat, cols as nat),
{
    let mut out: Matrix = Vec::with_capacity(rows);
    let mut i: usize = 0;
    while i < rows
        invariant
            i <= rows,
            out.len() == i,
            forall|k: int| 0 <= k < i ==> (#[trigger] out[k])@ == zeros64(cols as nat),
        decreases rows - i,
    {
        let row: Vec<Binary64> = filled64(cols, Binary64::zero());
        proof {
            assert(row@ =~= zeros64(cols as nat));
        }
        out.push(row);
        i = i + 1;
    }
    proof {
        assert forall|k: int| 0 <= k < rows implies entries(out@)[k] == zero_entries(
            rows as nat,
            cols as nat,
        )[k] by {
            assert(zeros64(cols as nat) =~= zero_entries(rows as nat, cols as nat)[k]);
        }
        assert(entries(out@) =~= zero_entries(rows as nat, cols as nat));
    }
    out
}

/// The identity matrix.
pub fn identity(n: usize) -> (r: Matrix)
    ensures
        entries(r@) == identity_entries(n as nat),
{
    let mut out: Matrix = Vec::with_capacity(n);
    let mut i: usize = 0;
    while i < n
        invariant
            i <= n,
            out.len() == i,
            forall|k: int| 0 <= k < i ==> (#[trigger] out[k])@ == identity_entries(n as nat)[k],
        decreases n - i,
    {
        let mut row: Vec<Binary64> = filled64(n, Binary64::zero());
        row.set(i, Binary64::one());
        proof {
            assert(row@ =~= identity_entries(n as nat)[i as int]);
        }
        out.push(row);
        i = i + 1;
    }
    proof {
        assert(entries(out@) =~= identity_entries(n as nat));
    }
    out
}

/// The sum of the first `k` terms of an entry of a product; a zero of the
/// left factor contributes nothing.
pub open spec fn product_entry(a: Entries, b: Entries, i: int, j: int, k: nat) -> Binary64
    decreases k,
{
    if k == 0 {
        Binary64::nothing()
    } else {
        let before = product_entry(a, b, i, j, (k - 1) as nat);
        let x = a[i][k - 1];
        if is_zero64(x) {
            before
        } else {
            before.plus(x.times(b[k - 1][j]))
        }
    }
}

/// The product of two matrices.
pub open spec fn product_of(a: Entries, b: Entries) -> Entries {
    tabulated(a.len(), width(b), |i: int, j: int| product_entry(a, b, i, j, b.len()))
}

/// Multiplies two matrices.
pub fn matmul(a: &Matrix, b: &Matrix) -> (r: Matrix)
    requires
        has_width(entries(a@), b.len() as nat),
        has_width(entries(b@), width(entries(b@))),
    ensures
        entries(r@) == product_of(entries(a@), entries(b@)),
{
    let ghost ea = entries(a@);
    let ghost eb = entries(b@);
    let cols: usize = if b.len() == 0 {
        0
    } else {
        b[0].len()
    };
    proof {
        if b.len() > 0 {
            assert(eb[0] == b[0]@);
        }
    }
    let mut out: Matrix = Vec::with_capacity(a.len());
    let mut i: usize = 0;
    while i < a.len()
        invariant
            i <= a.len(),
            ea == entries(a@),
            eb == entries(b@),
            has_width(ea, b.len() as nat),
            has_width(eb, cols as nat),
            cols as nat == width(eb),
            out.len() == i,
            forall|k: int| 0 <= k < i ==> (#[trigger] out[k])@ == product_of(ea, eb)[k],
        decreases a.len() - i,
    {
        let mut row: Vec<Binary64> = filled64(cols, Binary64::zero());
        let mut p: usize = 0;
        while p < b.len()
            invariant
                p <= b.len(),
                i < a.len(),
                ea == entries(a@),
                eb == entries(b@),
                has_width(ea, b.len() as nat),
                has_width(eb, cols as nat),
                row.len() == cols,
                forall|j: int|
                    0 <= j < cols ==> #[trigger] row[j] == product_entry(
                        ea,
                        eb,
                        i as int,
                        j,
                        p as nat,
                    ),
            decreases b.len() - p,
        {
            proof {
                assert(ea[i as int].len() == b.len());
                assert(ea[i as int] == a[i as int]@);
                assert(eb[p as int] == b[p as int]@);
                assert(eb[p as int].len() == cols);
            }
            let x: Binary64 = a[i][p];
            if !x.eq_value(Binary64::zero()) {
                let ghost start = row@;
                let mut j: usize = 0;
                while j < cols
                    invariant
                        j <= cols,
                        p < b.len(),
                        row.len() == cols,
                        start.len() == cols,
                        b[p as int].len() == cols,
                        forall|k: int|
                            0 <= k < j ==> #[trigger] row[k] == start[k].plus(
                                x.times(b[p as int]@[k]),
                            ),
                        forall|k: int| j <= k < cols ==> #[trigger] row[k] == start[k],
                    decreases cols - j,
                {
                    let y: Binary64 = b[p][j];
                    let v: Binary64 = row[j].add(x.mul(y));
                    row.set(j, v);
                    j = j + 1;
                }
            }
            p = p + 1;
        }
        proof {
            assert(row@ =~= product_of(ea, eb)[i as int]);
        }
        out.push(row);
        i = i + 1;
    }
    proof {
        assert(entries(out@) =~= product_of(ea, eb));
    }
    out
}

/// Rows and columns exchanged.
pub open spec fn transposed(a: Entries) -> Entries {
    tabulated(width(a), a.len(), |i: int, j: int| a[j][i])
}

/// Exchanges rows and columns.
pub fn transpose(a: &Matrix) -> (r: Matrix)
    requires
        has_width(entries(a@), width(entries(a@))),
    ensures
        entries(r@) == transposed(entries(a@)),
{
    let ghost ea = entries(a@);
    let cols: usize = if a.len() == 0 {
        0
    } else {
        a[0].len()
    };
    proof {
        if a.len() > 0 {
            assert(ea[0] == a[0]@);
        }
    }
    let mut out: Matrix = Vec::with_capacity(cols);
    let mut i: usize = 0;
    while i < cols
        invariant
            i <= cols,
            ea == entries(a@),
            cols as nat == width(ea),
            has_width(ea, cols as nat),
            out.len() == i,
            forall|k: int| 0 <= k < i ==> (#[trigger] out[k])@ == transposed(ea)[k],
        decreases cols - i,
    {
        let mut row: Vec<Binary64> = Vec::with_capacity(a.len());
        let mut j: usize = 0;
        while j < a.len()
            invariant
                j <= a.len(),
                i < cols,
                ea == entries(a@),
                has_width(ea, cols as nat),
                row.len() == j,
                forall|k: int| 0 <= k < j ==> #[trigger] row[k] == ea[k][i as int],
            decreases a.len() - j,
        {
            proof {
                assert(ea[j as int].len() == cols);
            }
            let v: Binary64 = a[j][i];
            row.push(v);
            j = j + 1;
        }
        proof {
            assert(row@ =~= transposed(ea)[i as int]);
        }
        out.push(row);
        i = i + 1;
    }
    proof {
        assert(entries(out@) =~= transposed(ea));
    }
    out
}

/// Adds two matrices.
pub open spec fn sum_of(a: Entries, b: Entries) -> Entries {
    tabulated(a.len(), width(a), |i: int, j: int| a[i][j].plus(b[i][j]))
}

/// Adds two matrices of one shape.
pub fn add_matrices(a: &Matrix, b: &Matrix, cols: usize) -> (r: Matrix)
    requires
        a.len() == b.len(),
        has_width(entries(a@), cols as nat),
        has_width(entries(b@), cols as nat),
    ensures
        entries(r@) == sum_of(entries(a@), entries(b@)),
{
    let ghost ea = entries(a@);
    let ghost eb = entries(b@);
    let mut out: Matrix = Vec::with_capacity(a.len());
    let mut i: usize = 0;
    while i < a.len()
        invariant
            i <= a.len(),
            a.len() == b.len(),
            ea == entries(a@),
            eb == entries(b@),
            has_width(ea, cols as nat),
            has_width(eb, cols as nat),
            out.len() == i,
            forall|k: int| 0 <= k < i ==> (#[trigger] out[k])@ == sum_of(ea, eb)[k],
        decreases a.len() - i,
    {
        let mut row: Vec<Binary64> = Vec::with_capacity(cols);
        proof {
            assert(ea[0].len() == cols);
            assert(ea[i as int].len() == cols);
            assert(eb[i as int].len() == cols);
        }
        let mut j: usize = 0;
        while j < cols
            invariant
                j <= cols,
                i < a.len(),
                a.len() == b.len(),
                ea == entries(a@),
                eb == entries(b@),
                ea[i as int].len() == cols,
                eb[i as int].len() == cols,
                row.len() == j,
                forall|k: int|
                    0 <= k < j ==> #[trigger] row[k] == ea[i as int][k].plus(eb[i as int][k]),
            decreases cols - j,
        {
            let x: Binary64 = a[i][j];
            let y: Binary64 = b[i][j];
            row.push(x.add(y));
            j = j + 1;
        }
        proof {
            assert(row@ =~= sum_of(ea, eb)[i as int]);
        }
        out.push(row);
        i = i + 1;
    }
    proof {
        assert(entries(out@) =~= sum_of(ea, eb));
    }
    out
}

/// A square matrix with `ridge` added on its diagonal.
pub open spec fn with_ridge(a: Entries, ridge: Binary64) -> Entries {
    tabulated(
        a.len(),
        a.len(),
        |i: int, j: int| if i == j { a[i][j].plus(ridge) } else { a[i][j] },
    )
}

/// Adds `ridge` on the diagonal of a square matrix.
pub fn add_ridge(a: &Matrix, ridge: Binary64) -> (r: Matrix)
    requires
        has_width(entries(a@), a.len() as nat),
    ensures
        entries(r@) == with_ridge(entries(a@), ridge),
{
    let ghost ea = entries(a@);
    let n: usize = a.len();
    let mut out: Matrix = Vec::with_capacity(n);
    let mut i: usize = 0;
    while i < n
        invariant
            i <= n,
            n == a.len(),
            ea == entries(a@),
            has_width(ea, n as nat),
            out.len() == i,
            forall|k: int| 0 <= k < i ==> (#[trigger] out[k])@ == with_ridge(ea, ridge)[k],
        decreases n - i,
    {
        proof {
            assert(ea[i as int].len() == n);
        }
        let mut row: Vec<Binary64> = Vec::with_capacity(n);
        let mut j: usize = 0;
        while j < n
            invariant
                j <= n,
                i < n,
                n == a.len(),
                ea == entries(a@),
                ea[i as int].len() == n,
                row.len() == j,
                forall|k: int| 0 <= k < j ==> #[trigger] row[k] == with_ridge(ea, ridge)[i as int][k],
            decreases n - j,
        {
            let x: Binary64 = a[i][j];
            if i == j {
                row.push(x.add(ridge));
            } else {
                row.push(x);
            }
            j = j + 1;
        }
        proof {
            assert(row@ =~= with_ridge(ea, ridge)[i as int]);
        }
        out.push(row);
        i = i + 1;
    }
    proof {
        assert(entries(out@) =~= with_ridge(ea, ridge));
    }
    out
}

} // verus!
