//! Linear systems, by Gaussian elimination with partial pivoting.
use vstd::prelude::*;
use crate::flanders::matrix::{entries, has_width, Entries, Matrix};
use crate::float::binary64::Binary64;
use crate::trusted::fltrust::is_zero64;

verus! {

/// A pivot below this is taken for zero: 10 to the minus 12.
pub open spec fn smallest_pivot() -> Binary64 {
    Binary64 { bits: 0x3d71_9799_812d_ea11 }
}

/// The row from `col` on, up to `upto`, with the largest absolute value in
/// column `col`; the last of several.
pub open spec fn pivot_row(m: Entries, col: nat, upto: nat) -> int
    decreases upto,
{
    if upto <= col + 1 {
        col as int
    } else {
        let best = pivot_row(m, col, (upto - 1) as nat);
        if m[upto - 1][col as int].absolute().below(m[best][col as int].absolute()) {
            best
        } else {
            upto - 1
        }
    }
}

/// Two rows exchanged.
pub open spec fn swapped(m: Entries, a: int, b: int) -> Entries {
    m.update(a, m[b]).update(b, m[a])
}

/// `row` over `d` from column `from` on.
pub open spec fn scaled_from(row: Seq<Binary64>, d: Binary64, from: int) -> Seq<Binary64> {
    Seq::new(row.len(), |c: int| if c >= from { row[c].over(d) } else { row[c] })
}

/// `row` less `factor` times `pivot` from column `from` on.
pub open spec fn reduced_from(
    row: Seq<Binary64>,
    factor: Binary64,
    pivot: Seq<Binary64>,
    from: int,
) -> Seq<Binary64> {
    Seq::new(
        row.len(),
        |c: int| if c >= from { row[c].minus(factor.times(pivot[c])) } else { row[c] },
    )
}

/// `part` of the system after clearing column `col` of `m` outside its pivot
/// row: the matrix itself from column `col` on, or a right-hand side whole.
pub open spec fn cleared(m: Entries, part: Entries, col: int, from: int) -> Entries {
    let d = m[col][col];
    let pivot = scaled_from(part[col], d, from);
    Seq::new(
        part.len(),
        |r: int|
            if r == col {
                pivot
            } else if is_zero64(m[r][col]) {
                part[r]
            } else {
                reduced_from(part[r], m[r][col], pivot, from)
            },
    )
}

/// What solves the system of `n` columns from column `col` on; nothing where a pivot is too
/// small.
pub open spec fn solution_from(m: Entries, rhs: Entries, col: nat, n: nat) -> Option<Entries>
    decreases n - col,
{
    if col >= n {
        Some(rhs)
    } else {
        let p = pivot_row(m, col, n);
        if m[p][col as int].absolute().below(smallest_pivot()) {
            None
        } else {
            let ms = swapped(m, col as int, p);
            let rs = swapped(rhs, col as int, p);
            solution_from(
                cleared(ms, ms, col as int, col as int),
                cleared(ms, rs, col as int, 0),
                col + 1,
                n,
            )
        }
    }
}

pub open spec fn all_finite_entries(m: Entries) -> bool {
    forall|i: int, j: int|
        0 <= i < m.len() && 0 <= j < m[i].len() ==> (#[trigger] m[i][j]).finite()
}

/// The solution of `m x = rhs`; nothing where the system has no shape, is
/// singular to working precision, or leaves the finite numbers.
pub open spec fn solution(m: Entries, rhs: Entries) -> Option<Entries> {
    if m.len() == 0 || m[0].len() != m.len() || rhs.len() != m.len() {
        None
    } else {
        match solution_from(m, rhs, 0, m.len()) {
            None => None,
            Some(x) => if all_finite_entries(x) {
                Some(x)
            } else {
                None
            },
        }
    }
}

fn find_pivot(m: &Matrix, col: usize) -> (r: usize)
    requires
        col < m.len(),
        has_width(entries(m@), m.len() as nat),
    ensures
        r as int == pivot_row(entries(m@), col as nat, m.len() as nat),
        col <= r < m.len(),
{
    let ghost em = entries(m@);
    let mut best: usize = col;
    let mut i: usize = col + 1;
    while i < m.len()
        invariant
            col < i <= m.len(),
            col <= best < i,
            em == entries(m@),
            has_width(em, m.len() as nat),
            best as int == pivot_row(em, col as nat, i as nat),
        decreases m.len() - i,
    {
        proof {
            assert(em[i as int].len() == m.len());
            assert(em[best as int].len() == m.len());
        }
        let candidate: Binary64 = m[i][col];
        let leader: Binary64 = m[best][col];
        if !candidate.abs().lt(leader.abs()) {
            best = i;
        }
        i = i + 1;
    }
    best
}

fn scale_row(row: &Vec<Binary64>, d: Binary64, from: usize) -> (r: Vec<Binary64>)
    ensures
        r@ == scaled_from(row@, d, from as int),
{
    let mut out: Vec<Binary64> = Vec::with_capacity(row.len());
    let mut c: usize = 0;
    while c < row.len()
        invariant
            c <= row.len(),
            out@ == scaled_from(row@, d, from as int).take(c as int),
        decreases row.len() - c,
    {
        if c >= from {
            out.push(row[c].div(d));
        } else {
            out.push(row[c]);
        }
        proof {
            assert(out@ =~= scaled_from(row@, d, from as int).take(c + 1));
        }
        c = c + 1;
    }
    proof {
        assert(scaled_from(row@, d, from as int).take(c as int) =~= scaled_from(
            row@,
            d,
            from as int,
        ));
    }
    out
}

fn reduce_row(row: &Vec<Binary64>, factor: Binary64, pivot: &Vec<Binary64>, from: usize) -> (r: Vec<
    Binary64,
>)
    requires
        row.len() == pivot.len(),
    ensures
        r@ == reduced_from(row@, factor, pivot@, from as int),
{
    let ghost goal = reduced_from(row@, factor, pivot@, from as int);
    let mut out: Vec<Binary64> = Vec::with_capacity(row.len());
    let mut c: usize = 0;
    while c < row.len()
        invariant
            c <= row.len(),
            row.len() == pivot.len(),
            goal == reduced_from(row@, factor, pivot@, from as int),
            out@ == goal.take(c as int),
        decreases row.len() - c,
    {
        if c >= from {
            out.push(row[c].sub(factor.mul(pivot[c])));
        } else {
            out.push(row[c]);
        }
        proof {
            assert(out@ =~= goal.take(c + 1));
        }
        c = c + 1;
    }
    proof {
        assert(goal.take(c as int) =~= goal);
    }
    out
}

/// Copies a row.
fn copy_row(row: &Vec<Binary64>) -> (r: Vec<Binary64>)
    ensures
        r@ == row@,
{
    let mut out: Vec<Binary64> = Vec::with_capacity(row.len());
    let mut c: usize = 0;
    while c < row.len()
        invariant
            c <= row.len(),
            out@ == row@.take(c as int),
        decreases row.len() - c,
    {
        out.push(row[c]);
        proof {
            assert(out@ =~= row@.take(c + 1));
        }
        c = c + 1;
    }
    proof {
        assert(row@.take(c as int) =~= row@);
    }
    out
}

fn swap_rows(m: &mut Matrix, a: usize, b: usize)
    requires
        a < old(m).len(),
        b < old(m).len(),
    ensures
        entries(final(m)@) == swapped(entries(old(m)@), a as int, b as int),
        final(m).len() == old(m).len(),
{
    let ghost before = entries(m@);
    let row_a: Vec<Binary64> = copy_row(&m[a]);
    let row_b: Vec<Binary64> = copy_row(&m[b]);
    m.set(a, row_b);
    m.set(b, row_a);
    proof {
        assert(entries(m@) =~= swapped(before, a as int, b as int));
    }
}

fn clear_column(m: &Matrix, part: &Matrix, col: usize, from: usize, Ghost(cols): Ghost<nat>) -> (r:
    Matrix)
    requires
        col < m.len(),
        m.len() == part.len(),
        has_width(entries(m@), m.len() as nat),
        has_width(entries(part@), cols),
    ensures
        entries(r@) == cleared(entries(m@), entries(part@), col as int, from as int),
        has_width(entries(r@), cols),
        r.len() == part.len(),
{
    let ghost em = entries(m@);
    let ghost ep = entries(part@);
    let ghost goal = cleared(em, ep, col as int, from as int);
    proof {
        assert(em[col as int].len() == m.len());
        assert(ep[col as int].len() == cols);
        assert(ep[col as int] == part[col as int]@);
    }
    let d: Binary64 = m[col][col];
    let pivot: Vec<Binary64> = scale_row(&part[col], d, from);
    let mut out: Matrix = Vec::with_capacity(part.len());
    let mut r: usize = 0;
    while r < part.len()
        invariant
            r <= part.len(),
            col < m.len(),
            m.len() == part.len(),
            em == entries(m@),
            ep == entries(part@),
            has_width(em, m.len() as nat),
            has_width(ep, cols),
            d == em[col as int][col as int],
            pivot@ == scaled_from(ep[col as int], d, from as int),
            pivot.len() == cols,
            goal == cleared(em, ep, col as int, from as int),
            out.len() == r,
            forall|k: int| 0 <= k < r ==> (#[trigger] out[k])@ == goal[k],
            forall|k: int| 0 <= k < r ==> (#[trigger] out[k]).len() == cols,
        decreases part.len() - r,
    {
        proof {
            assert(em[r as int].len() == m.len());
            assert(ep[r as int].len() == cols);
            assert(ep[r as int] == part[r as int]@);
        }
        let factor: Binary64 = m[r][col];
        let row: Vec<Binary64> = if r == col {
            copy_row(&pivot)
        } else if factor.eq_value(Binary64::zero()) {
            copy_row(&part[r])
        } else {
            reduce_row(&part[r], factor, &pivot, from)
        };
        proof {
            assert(row@ == goal[r as int]);
        }
        out.push(row);
        r = r + 1;
    }
    proof {
        assert(entries(out@) =~= goal);
    }
    out
}

pub fn entries_finite(m: &Matrix) -> (r: bool)
    ensures
        r == all_finite_entries(entries(m@)),
{
    let ghost em = entries(m@);
    let mut i: usize = 0;
    while i < m.len()
        invariant
            i <= m.len(),
            em == entries(m@),
            forall|a: int, j: int|
                0 <= a < i && 0 <= j < em[a].len() ==> (#[trigger] em[a][j]).finite(),
        decreases m.len() - i,
    {
        let mut j: usize = 0;
        while j < m[i].len()
            invariant
                i < m.len(),
                j <= m[i as int].len(),
                em == entries(m@),
                forall|b: int| 0 <= b < j ==> (#[trigger] em[i as int][b]).finite(),
            decreases m[i as int].len() - j,
        {
            let v: Binary64 = m[i][j];
            if !v.is_finite() {
                proof {
                    assert(!em[i as int][j as int].finite());
                }
                return false;
            }
            j = j + 1;
        }
        i = i + 1;
    }
    true
}

/// Solves `m x = rhs`; `None` where the system is singular to working
/// precision or leaves the finite numbers.
pub fn solve(m: Matrix, rhs: Matrix) -> (r: Option<Matrix>)
    requires
        m.len() > 0 ==> has_width(entries(m@), entries(m@)[0].len()),
        rhs.len() > 0 ==> has_width(entries(rhs@), entries(rhs@)[0].len()),
    ensures
        match (r, solution(entries(m@), entries(rhs@))) {
            (Some(x), Some(s)) => entries(x@) == s,
            (None, None) => true,
            _ => false,
        },
        r is Some ==> r->0.len() == m.len() && has_width(
            entries(r->0@),
            entries(rhs@)[0].len(),
        ),
{
    let ghost em = entries(m@);
    let ghost er = entries(rhs@);
    let n: usize = m.len();
    proof {
        if n > 0 {
            assert(em[0] == m[0]@);
        }
    }
    if n == 0 || m[0].len() != n || rhs.len() != n {
        return None;
    }
    let ghost cols = er[0].len();
    let mut left: Matrix = m;
    let mut right: Matrix = rhs;
    let mut col: usize = 0;
    let mut singular: bool = false;
    while col < n && !singular
        invariant
            col <= n,
            left.len() == n,
            right.len() == n,
            has_width(entries(left@), n as nat),
            has_width(entries(right@), cols),
            solution_from(em, er, 0, n as nat) == if singular {
                None
            } else {
                solution_from(entries(left@), entries(right@), col as nat, n as nat)
            },
        decreases n - col,
    {
        let ghost lm = entries(left@);
        let ghost rm = entries(right@);
        let p: usize = find_pivot(&left, col);
        proof {
            assert(lm[p as int].len() == n);
        }
        let leader: Binary64 = left[p][col];
        if leader.abs().lt(Binary64 { bits: 0x3d71_9799_812d_ea11 }) {
            singular = true;
        }
        swap_rows(&mut left, col, p);
        swap_rows(&mut right, col, p);
        let ghost ls = entries(left@);
        let ghost rs = entries(right@);
        proof {
            assert(has_width(ls, n as nat)) by {
                assert forall|i: int| 0 <= i < ls.len() implies (#[trigger] ls[i]).len() == n by {
                    assert(lm[i].len() == n);
                    assert(lm[col as int].len() == n);
                    assert(lm[p as int].len() == n);
                }
            }
            assert(has_width(rs, cols)) by {
                assert forall|i: int| 0 <= i < rs.len() implies (#[trigger] rs[i]).len() == cols by {
                    assert(rm[i].len() == cols);
                    assert(rm[col as int].len() == cols);
                    assert(rm[p as int].len() == cols);
                }
            }
        }
        let next_right: Matrix = clear_column(&left, &right, col, 0, Ghost(cols));
        let next_left: Matrix = clear_column(&left, &left, col, col, Ghost(n as nat));
        left = next_left;
        right = next_right;
        col = col + 1;
    }
    if !singular && entries_finite(&right) {
        Some(right)
    } else {
        None
    }
}

} // verus!
