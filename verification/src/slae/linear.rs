//! What the row operations do to the solutions of a system.
//!
//! A vector `w` of `n + 1` integers stands for the rational point with the
//! coordinates `w[i] / -w[n]`: it solves the system of an augmented matrix
//! when every row, taken as a vector, is orthogonal to `w`. Those vectors
//! form the kernel of the matrix. Row operations that can be undone leave
//! the kernel as it is, and with it the answer that a solver owes.
use crate::slae::matrix::{with_rows_summed, with_rows_swapped};
use vstd::prelude::*;

verus! {

/// The sum of `row[j] * w[j]` over the columns `j` below `k`.
pub open spec fn dot_upto(row: Seq<int>, w: Seq<int>, k: int) -> int
    decreases k,
{
    if k <= 0 {
        0
    } else {
        dot_upto(row, w, k - 1) + row[k - 1] * w[k - 1]
    }
}

/// The scalar product of a row with `w`.
pub open spec fn dot(row: Seq<int>, w: Seq<int>) -> int {
    dot_upto(row, w, row.len() as int)
}

/// Every row has one more column than the matrix has rows.
pub open spec fn rectangular(m: Seq<Seq<int>>) -> bool {
    forall|y: int| 0 <= y < m.len() ==> (#[trigger] m[y]).len() == m.len() + 1
}

/// Every row of `m` is orthogonal to `w`.
pub open spec fn in_kernel(m: Seq<Seq<int>>, w: Seq<int>) -> bool {
    &&& w.len() == m.len() + 1
    &&& forall|y: int| 0 <= y < m.len() ==> dot(#[trigger] m[y], w) == 0
}

/// The two matrices have the same solutions.
pub open spec fn same_kernel(a: Seq<Seq<int>>, b: Seq<Seq<int>>) -> bool {
    &&& a.len() == b.len()
    &&& forall|w: Seq<int>|
        #![trigger in_kernel(a, w)]
        #![trigger in_kernel(b, w)]
        in_kernel(a, w) <==> in_kernel(b, w)
}

/// `row` is one of the rows of `m`.
pub open spec fn has_row(m: Seq<Seq<int>>, row: Seq<int>) -> bool {
    exists|j: int| 0 <= j < m.len() && #[trigger] m[j] == row
}

/// Every row of each matrix is a row of the other.
pub open spec fn same_rows(a: Seq<Seq<int>>, b: Seq<Seq<int>>) -> bool {
    &&& a.len() == b.len()
    &&& forall|i: int| 0 <= i < a.len() ==> #[trigger] has_row(b, a[i])
    &&& forall|j: int| 0 <= j < b.len() ==> #[trigger] has_row(a, b[j])
}

/// `p` and `q` are permutations of the numbers below their length, each
/// the inverse of the other.
pub open spec fn inverse_permutations(p: Seq<int>, q: Seq<int>) -> bool {
    &&& p.len() == q.len()
    &&& forall|i: int| 0 <= i < p.len() ==> 0 <= #[trigger] p[i] < q.len() && q[p[i]] == i
    &&& forall|j: int| 0 <= j < q.len() ==> 0 <= #[trigger] q[j] < p.len() && p[q[j]] == j
}

/// The rows of `m` in the order that `p` gives: row `i` is row `p[i]` of `m`.
pub open spec fn permuted(m: Seq<Seq<int>>, p: Seq<int>) -> Seq<Seq<int>> {
    Seq::new(p.len(), |i: int| m[p[i]])
}

/// `b` holds the rows of `a` in another order.
pub open spec fn is_row_permutation(a: Seq<Seq<int>>, b: Seq<Seq<int>>) -> bool {
    exists|p: Seq<int>, q: Seq<int>|
        #![trigger inverse_permutations(p, q)]
        p.len() == a.len() && inverse_permutations(p, q) && b == permuted(a, p)
}

/// No solution: a vector of the kernel stands for no point.
pub open spec fn inconsistent(m: Seq<Seq<int>>) -> bool {
    forall|w: Seq<int>| in_kernel(m, w) ==> w[m.len() as int] == 0
}

/// Some solution: a vector of the kernel stands for a point.
pub open spec fn consistent(m: Seq<Seq<int>>) -> bool {
    exists|w: Seq<int>| in_kernel(m, w) && w[m.len() as int] != 0
}

/// A direction along which a solution can move: a vector of the kernel, not
/// zero, whose last entry is zero.
pub open spec fn free_direction(m: Seq<Seq<int>>, h: Seq<int>) -> bool {
    &&& in_kernel(m, h)
    &&& h[m.len() as int] == 0
    &&& exists|i: int| 0 <= i < m.len() && h[i] != 0
}

/// Infinitely many solutions: one solution and a direction to move it
/// along. The rank of such a matrix is below the number of its rows.
pub open spec fn underdetermined(m: Seq<Seq<int>>) -> bool {
    &&& consistent(m)
    &&& exists|h: Seq<int>| free_direction(m, h)
}

/// What row `y` of the diagonal system `d[y] * x[y] = rhs[y]` asks of `w`.
pub open spec fn residual(d: Seq<int>, rhs: Seq<int>, w: Seq<int>, y: int) -> int {
    d[y] * w[y] + rhs[y] * w[d.len() as int]
}

/// `w` solves the diagonal system `d[y] * x[y] = rhs[y]`.
pub open spec fn solves_diagonal(d: Seq<int>, rhs: Seq<int>, w: Seq<int>) -> bool {
    &&& w.len() == d.len() + 1
    &&& forall|y: int| 0 <= y < d.len() ==> #[trigger] residual(d, rhs, w, y) == 0
}

/// `m` is the augmented matrix of the diagonal system `d[y] * x[y] = rhs[y]`.
pub open spec fn is_diagonal_system(m: Seq<Seq<int>>, d: Seq<int>, rhs: Seq<int>) -> bool {
    &&& rectangular(m)
    &&& d.len() == m.len()
    &&& rhs.len() == m.len()
    &&& forall|y: int, x: int|
        0 <= y < m.len() && 0 <= x <= m.len() ==> #[trigger] m[y][x] == (if x == y {
            d[y]
        } else if x == m.len() {
            rhs[y]
        } else {
            0
        })
}

/// `m` has the solutions of the diagonal system `d[y] * x[y] = rhs[y]`.
pub open spec fn has_diagonal_kernel(m: Seq<Seq<int>>, d: Seq<int>, rhs: Seq<int>) -> bool {
    &&& d.len() == m.len()
    &&& rhs.len() == m.len()
    &&& forall|w: Seq<int>| #[trigger] in_kernel(m, w) <==> solves_diagonal(d, rhs, w)
}

/// The product of `d[j]` over the `j` below `k`.
pub open spec fn product_upto(d: Seq<int>, k: int) -> int
    decreases k,
{
    if k <= 0 {
        1
    } else {
        product_upto(d, k - 1) * d[k - 1]
    }
}

/// The product of `d[j]` over the `j` below `k`, `i` left out.
pub open spec fn product_without(d: Seq<int>, k: int, i: int) -> int
    decreases k,
{
    if k <= 0 {
        1
    } else if k - 1 == i {
        product_without(d, k - 1, i)
    } else {
        product_without(d, k - 1, i) * d[k - 1]
    }
}

pub proof fn lemma_dot_of_sum(a: Seq<int>, b: Seq<int>, c: Seq<int>, f: int, w: Seq<int>, k: int)
    requires
        0 <= k,
        forall|j: int| 0 <= j < k ==> #[trigger] c[j] == a[j] * f + b[j],
    ensures
        dot_upto(c, w, k) == dot_upto(a, w, k) * f + dot_upto(b, w, k),
    decreases k,
{
    if k > 0 {
        lemma_dot_of_sum(a, b, c, f, w, k - 1);
        let x = a[k - 1];
        let y = b[k - 1];
        let z = w[k - 1];
        let p = dot_upto(a, w, k - 1);
        assert(c[k - 1] == x * f + y);
        assert((x * f + y) * z + p * f == (p + x * z) * f + y * z) by (nonlinear_arith);
    }
}

/// Adding a multiple of one row to another keeps the solutions, unless a
/// row is taken from itself once.
pub proof fn lemma_sum_keeps_kernel(m: Seq<Seq<int>>, t: int, r: int, f: int)
    requires
        rectangular(m),
        0 <= t < m.len(),
        0 <= r < m.len(),
        t != r || f != -1,
    ensures
        same_kernel(m, with_rows_summed(m, t, r, f)),
{
    let m2 = with_rows_summed(m, t, r, f);
    let n = m.len() as int;
    assert forall|w: Seq<int>| in_kernel(m, w) <==> in_kernel(m2, w) by {
        if w.len() == n + 1 {
            lemma_dot_of_sum(m[t], m[r], m2[r], f, w, n + 1);
            let dt = dot(m[t], w);
            let dr = dot(m[r], w);
            assert(dot(m2[r], w) == dt * f + dr);
            if in_kernel(m, w) {
                assert(dt == 0 && dr == 0);
                assert(dt * f + dr == 0) by (nonlinear_arith)
                    requires
                        dt == 0,
                        dr == 0,
                ;
                assert forall|y: int| 0 <= y < n implies dot(#[trigger] m2[y], w) == 0 by {
                    if y != r {
                        assert(m2[y] == m[y]);
                    }
                }
            }
            if in_kernel(m2, w) {
                assert(dot(m2[r], w) == 0);
                if t != r {
                    assert(m2[t] == m[t]);
                    assert(dt == 0);
                    assert(dt * f == 0) by (nonlinear_arith)
                        requires
                            dt == 0,
                    ;
                } else {
                    assert(dr == 0) by (nonlinear_arith)
                        requires
                            dr * f + dr == 0,
                            f != -1,
                    ;
                }
                assert forall|y: int| 0 <= y < n implies dot(#[trigger] m[y], w) == 0 by {
                    if y != r {
                        assert(m2[y] == m[y]);
                    }
                }
            }
        }
    }
}

/// Matrices with the same rows, in whatever order, have the same solutions.
pub proof fn lemma_same_rows_same_kernel(a: Seq<Seq<int>>, b: Seq<Seq<int>>)
    requires
        same_rows(a, b),
    ensures
        same_kernel(a, b),
{
    assert forall|w: Seq<int>| in_kernel(a, w) <==> in_kernel(b, w) by {
        if in_kernel(a, w) {
            assert forall|y: int| 0 <= y < b.len() implies dot(#[trigger] b[y], w) == 0 by {
                assert(has_row(a, b[y]));
                let i = choose|i: int| 0 <= i < a.len() && #[trigger] a[i] == b[y];
                assert(dot(a[i], w) == 0);
            }
        }
        if in_kernel(b, w) {
            assert forall|y: int| 0 <= y < a.len() implies dot(#[trigger] a[y], w) == 0 by {
                assert(has_row(b, a[y]));
                let j = choose|j: int| 0 <= j < b.len() && #[trigger] b[j] == a[y];
                assert(dot(b[j], w) == 0);
            }
        }
    }
}

/// Exchanging two rows keeps the solutions.
pub proof fn lemma_swap_keeps_kernel(m: Seq<Seq<int>>, a: int, b: int)
    requires
        0 <= a < m.len(),
        0 <= b < m.len(),
    ensures
        same_kernel(m, with_rows_swapped(m, a, b)),
{
    let m2 = with_rows_swapped(m, a, b);
    assert forall|i: int| 0 <= i < m.len() implies #[trigger] has_row(m2, m[i]) by {
        let j = if i == a {
            b
        } else if i == b {
            a
        } else {
            i
        };
        assert(m2[j] == m[i]);
    }
    assert forall|j: int| 0 <= j < m2.len() implies #[trigger] has_row(m, m2[j]) by {
        let i = if j == a {
            b
        } else if j == b {
            a
        } else {
            j
        };
        assert(m[i] == m2[j]);
    }
    lemma_same_rows_same_kernel(m, m2);
}

/// The order that the rows are in is one of the orders that they can be
/// put in.
pub proof fn lemma_same_order_is_row_permutation(m: Seq<Seq<int>>)
    ensures
        is_row_permutation(m, m),
{
    let p = Seq::new(m.len(), |i: int| i);
    assert(inverse_permutations(p, p));
    assert(permuted(m, p) =~= m);
}

/// Putting the rows in another order keeps the solutions.
pub proof fn lemma_row_permutation_keeps_kernel(a: Seq<Seq<int>>, b: Seq<Seq<int>>)
    requires
        is_row_permutation(a, b),
    ensures
        same_kernel(a, b),
{
    let (p, q) = choose|p: Seq<int>, q: Seq<int>|
        #![trigger inverse_permutations(p, q)]
        p.len() == a.len() && inverse_permutations(p, q) && b == permuted(a, p);
    assert forall|i: int| 0 <= i < a.len() implies #[trigger] has_row(b, a[i]) by {
        assert(b[q[i]] == a[p[q[i]]]);
    }
    assert forall|j: int| 0 <= j < b.len() implies #[trigger] has_row(a, b[j]) by {
        assert(a[p[j]] == b[j]);
    }
    lemma_same_rows_same_kernel(a, b);
}

/// Having the same solutions is transitive.
pub proof fn lemma_same_kernel_transitive(a: Seq<Seq<int>>, b: Seq<Seq<int>>, c: Seq<Seq<int>>)
    requires
        same_kernel(a, b),
        same_kernel(b, c),
    ensures
        same_kernel(a, c),
{
    assert forall|w: Seq<int>| in_kernel(a, w) <==> in_kernel(c, w) by {
        assert(in_kernel(a, w) <==> in_kernel(b, w));
        assert(in_kernel(b, w) <==> in_kernel(c, w));
    }
}

proof fn lemma_dot_of_diagonal_row(row: Seq<int>, w: Seq<int>, y: int, n: int, k: int)
    requires
        0 <= y < n,
        0 <= k <= n + 1,
        forall|x: int| 0 <= x <= n && x != y && x != n ==> #[trigger] row[x] == 0,
    ensures
        dot_upto(row, w, k) == (if y < k {
            row[y] * w[y]
        } else {
            0
        }) + (if n < k {
            row[n] * w[n]
        } else {
            0
        }),
    decreases k,
{
    if k > 0 {
        lemma_dot_of_diagonal_row(row, w, y, n, k - 1);
        if k - 1 != y && k - 1 != n {
            assert(row[k - 1] == 0);
            assert(row[k - 1] * w[k - 1] == 0) by (nonlinear_arith)
                requires
                    row[k - 1] == 0,
            ;
        }
    }
}

/// The augmented matrix of a diagonal system has the solutions of that
/// system.
pub proof fn lemma_diagonal_system_kernel(m: Seq<Seq<int>>, d: Seq<int>, rhs: Seq<int>)
    requires
        is_diagonal_system(m, d, rhs),
    ensures
        has_diagonal_kernel(m, d, rhs),
{
    let n = m.len() as int;
    assert forall|w: Seq<int>| #[trigger] in_kernel(m, w) <==> solves_diagonal(d, rhs, w) by {
        if w.len() == n + 1 {
            assert forall|y: int| 0 <= y < n implies dot(#[trigger] m[y], w) == residual(
                d,
                rhs,
                w,
                y,
            ) by {
                assert forall|x: int| 0 <= x <= n && x != y && x != n implies #[trigger] m[y][x]
                    == 0 by {}
                lemma_dot_of_diagonal_row(m[y], w, y, n, n + 1);
                assert(m[y][y] == d[y]);
                assert(m[y][n] == rhs[y]);
            }
            if in_kernel(m, w) {
                assert forall|y: int| 0 <= y < n implies #[trigger] residual(d, rhs, w, y)
                    == 0 by {
                    assert(dot(m[y], w) == 0);
                }
            }
            if solves_diagonal(d, rhs, w) {
                assert forall|y: int| 0 <= y < n implies dot(#[trigger] m[y], w) == 0 by {
                    assert(residual(d, rhs, w, y) == 0);
                }
            }
        }
    }
}

/// Matrices with the same solutions share the diagonal system that
/// describes them.
pub proof fn lemma_diagonal_kernel_carries(
    a: Seq<Seq<int>>,
    b: Seq<Seq<int>>,
    d: Seq<int>,
    rhs: Seq<int>,
)
    requires
        has_diagonal_kernel(a, d, rhs),
        same_kernel(a, b),
    ensures
        has_diagonal_kernel(b, d, rhs),
{
    assert forall|w: Seq<int>| #[trigger] in_kernel(b, w) <==> solves_diagonal(d, rhs, w) by {
        assert(in_kernel(a, w) <==> in_kernel(b, w));
    }
}

/// A diagonal system whose last row reads `0 = rhs` with `rhs` not zero
/// has no solution.
pub proof fn lemma_zero_equals_nonzero_is_inconsistent(
    m: Seq<Seq<int>>,
    d: Seq<int>,
    rhs: Seq<int>,
)
    requires
        has_diagonal_kernel(m, d, rhs),
        m.len() > 0,
        d[m.len() - 1] == 0,
        rhs[m.len() - 1] != 0,
    ensures
        inconsistent(m),
{
    let n = m.len() as int;
    assert forall|w: Seq<int>| in_kernel(m, w) implies w[n] == 0 by {
        assert(solves_diagonal(d, rhs, w));
        assert(residual(d, rhs, w, n - 1) == 0);
        assert(w[n] == 0) by (nonlinear_arith)
            requires
                d[n - 1] * w[n - 1] + rhs[n - 1] * w[n] == 0,
                d[n - 1] == 0,
                rhs[n - 1] != 0,
        ;
    }
}

proof fn lemma_product_nonzero(d: Seq<int>, k: int)
    requires
        0 <= k <= d.len(),
        forall|j: int| 0 <= j < k ==> #[trigger] d[j] != 0,
    ensures
        product_upto(d, k) != 0,
    decreases k,
{
    if k > 0 {
        lemma_product_nonzero(d, k - 1);
        assert(product_upto(d, k - 1) * d[k - 1] != 0) by (nonlinear_arith)
            requires
                product_upto(d, k - 1) != 0,
                d[k - 1] != 0,
        ;
    }
}

proof fn lemma_product_split(d: Seq<int>, k: int, i: int)
    requires
        0 <= k <= d.len(),
    ensures
        0 <= i < k ==> d[i] * product_without(d, k, i) == product_upto(d, k),
        !(0 <= i < k) ==> product_without(d, k, i) == product_upto(d, k),
    decreases k,
{
    if k > 0 {
        lemma_product_split(d, k - 1, i);
        let p = product_upto(d, k - 1);
        let q = product_without(d, k - 1, i);
        let e = d[k - 1];
        if k - 1 == i {
            assert(e * q == p * e) by (nonlinear_arith)
                requires
                    q == p,
            ;
        } else if 0 <= i < k - 1 {
            assert(d[i] * (q * e) == p * e) by (nonlinear_arith)
                requires
                    d[i] * q == p,
            ;
        }
    }
}

/// A diagonal system whose last row is zero, with no other zero on the
/// diagonal, has infinitely many solutions.
pub proof fn lemma_zero_row_is_underdetermined(m: Seq<Seq<int>>, d: Seq<int>, rhs: Seq<int>)
    requires
        has_diagonal_kernel(m, d, rhs),
        m.len() > 0,
        d[m.len() - 1] == 0,
        rhs[m.len() - 1] == 0,
        forall|j: int| 0 <= j < m.len() - 1 ==> #[trigger] d[j] != 0,
    ensures
        underdetermined(m),
{
    let n = m.len() as int;
    let h = Seq::new(
        (n + 1) as nat,
        |i: int|
            if i == n - 1 {
                1int
            } else {
                0int
            },
    );
    assert forall|y: int| 0 <= y < n implies #[trigger] residual(d, rhs, h, y) == 0 by {
        assert(d[y] * h[y] + rhs[y] * h[n] == 0) by (nonlinear_arith)
            requires
                h[n] == 0,
                h[y] == 0 || d[y] == 0,
        ;
    }
    assert(solves_diagonal(d, rhs, h));
    assert(in_kernel(m, h));
    assert(h[n - 1] != 0);
    assert(free_direction(m, h));
    let total = product_upto(d, n - 1);
    lemma_product_nonzero(d, n - 1);
    let w = Seq::new(
        (n + 1) as nat,
        |i: int|
            if i == n {
                -total
            } else if i == n - 1 {
                0int
            } else {
                rhs[i] * product_without(d, n - 1, i)
            },
    );
    assert forall|y: int| 0 <= y < n implies #[trigger] residual(d, rhs, w, y) == 0 by {
        if y == n - 1 {
            assert(d[y] * w[y] + rhs[y] * w[n] == 0) by (nonlinear_arith)
                requires
                    d[y] == 0,
                    rhs[y] == 0,
            ;
        } else {
            lemma_product_split(d, n - 1, y);
            let q = product_without(d, n - 1, y);
            assert(d[y] * (rhs[y] * q) + rhs[y] * (-total) == 0) by (nonlinear_arith)
                requires
                    d[y] * q == total,
            ;
        }
    }
    assert(solves_diagonal(d, rhs, w));
    assert(in_kernel(m, w));
    assert(w[n] != 0);
}

/// Matrices with the same solutions are inconsistent together, and
/// underdetermined together.
pub proof fn lemma_same_kernel_same_verdict(a: Seq<Seq<int>>, b: Seq<Seq<int>>)
    requires
        same_kernel(a, b),
    ensures
        inconsistent(a) <==> inconsistent(b),
        consistent(a) <==> consistent(b),
        underdetermined(a) <==> underdetermined(b),
{
    let n = a.len() as int;
    assert forall|w: Seq<int>| in_kernel(a, w) <==> in_kernel(b, w) by {}
    if consistent(a) {
        let w = choose|w: Seq<int>| in_kernel(a, w) && w[n] != 0;
        assert(in_kernel(b, w));
    }
    if consistent(b) {
        let w = choose|w: Seq<int>| in_kernel(b, w) && w[n] != 0;
        assert(in_kernel(a, w));
    }
    if underdetermined(a) {
        let h = choose|h: Seq<int>| free_direction(a, h);
        assert(in_kernel(b, h));
        assert(free_direction(b, h));
    }
    if underdetermined(b) {
        let h = choose|h: Seq<int>| free_direction(b, h);
        assert(in_kernel(a, h));
        assert(free_direction(a, h));
    }
    if inconsistent(a) {
        assert forall|w: Seq<int>| in_kernel(b, w) implies w[n] == 0 by {
            assert(in_kernel(a, w));
        }
    }
    if inconsistent(b) {
        assert forall|w: Seq<int>| in_kernel(a, w) implies w[n] == 0 by {
            assert(in_kernel(b, w));
        }
    }
}

} // verus!
