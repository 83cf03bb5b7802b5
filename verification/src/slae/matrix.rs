//! The augmented matrix of a linear system, with the row operations that the
//! fixture generator applies to it.
use crate::slae::decimal::{decimal, push_decimal};
use crate::slae::floatizable::{
    floatizable, is_floatizable, lemma_round_trip_is_floatizable, round_trip, round_trip_of,
};
use crate::slae::linear::{inverse_permutations, is_row_permutation, permuted};
use crate::slae::random::shuffle;
use rand::rngs::SmallRng;
use vstd::prelude::*;
use vstd::string::*;

verus! {

/// An `n` by `n + 1` matrix of integers. The last column is the right-hand
/// side. Every cell is floatizable. Rows are addressed in logical order; a
/// permutation maps each logical row to the row of storage that holds it, so
/// exchanging two rows moves no cell.
pub struct Matrix {
    n: i32,
    rows: Vec<i32>,
    matrix: Vec<i32>,
}

impl Clone for Matrix {
    /// A matrix of its own with the same rows.
    fn clone(&self) -> (copy: Self)
        ensures
            copy@ == self@,
            copy.size() == self.size(),
            self.wf() ==> copy.wf(),
    {
        let rows: Vec<i32> = self.rows.clone();
        let matrix: Vec<i32> = self.matrix.clone();
        proof {
            assert(rows@ =~= self.rows@);
            assert(matrix@ =~= self.matrix@);
        }
        let copy = Matrix { n: self.n, rows, matrix };
        proof {
            assert(copy@ =~~= self@);
        }
        copy
    }
}

/// Position in storage of column `x` of storage row `p`.
pub open spec fn slot(p: int, x: int, n: int) -> int {
    p * (n + 1) + x
}

/// A value that a cell can hold.
pub open spec fn storable(v: int) -> bool {
    i32::MIN <= v <= i32::MAX && floatizable(v)
}

/// `m` has one more column than rows, and every cell is storable.
pub open spec fn well_shaped(m: Seq<Seq<int>>) -> bool {
    forall|y: int|
        0 <= y < m.len() ==> {
            &&& (#[trigger] m[y]).len() == m.len() + 1
            &&& forall|x: int| 0 <= x <= m.len() ==> storable(#[trigger] m[y][x])
        }
}

/// `m` with the cell in row `y`, column `x` replaced by `v`.
pub open spec fn with_cell(m: Seq<Seq<int>>, y: int, x: int, v: int) -> Seq<Seq<int>> {
    m.update(y, m[y].update(x, v))
}

/// `m` with rows `a` and `b` exchanged.
pub open spec fn with_rows_swapped(m: Seq<Seq<int>>, a: int, b: int) -> Seq<Seq<int>> {
    m.update(a, m[b]).update(b, m[a])
}

/// Row `r` of `m` after `f` times row `t` was added to its columns from
/// `from` up to, not including, `upto`.
pub open spec fn partly_summed_row(
    m: Seq<Seq<int>>,
    t: int,
    r: int,
    f: int,
    from: int,
    upto: int,
) -> Seq<int> {
    Seq::new(
        m[r].len(),
        |x: int|
            if from <= x < upto {
                m[t][x] * f + m[r][x]
            } else {
                m[r][x]
            },
    )
}

/// `m` with `f` times row `t` added to row `r`.
pub open spec fn with_rows_summed(m: Seq<Seq<int>>, t: int, r: int, f: int) -> Seq<Seq<int>> {
    m.update(r, partly_summed_row(m, t, r, f, 0, m[r].len() as int))
}

/// In column `x`, `f` times row `t` plus row `r` can be computed in 32 bits
/// and the sum is storable.
pub open spec fn column_fits(m: Seq<Seq<int>>, t: int, r: int, f: int, x: int) -> bool {
    &&& i32::MIN <= m[t][x] * f <= i32::MAX
    &&& storable(m[t][x] * f + m[r][x])
}

/// Every column fits.
pub open spec fn sum_fits(m: Seq<Seq<int>>, t: int, r: int, f: int) -> bool {
    forall|x: int| 0 <= x < m[r].len() ==> column_fits(m, t, r, f, x)
}

/// The first `upto` cells of a row, each followed by a space.
pub open spec fn cells_text(row: Seq<int>, upto: int) -> Seq<char>
    decreases upto,
{
    if upto <= 0 {
        Seq::empty()
    } else {
        cells_text(row, upto - 1) + decimal(row[upto - 1]) + seq![' ']
    }
}

/// The first `upto` rows, each followed by a line feed.
pub open spec fn rows_text(m: Seq<Seq<int>>, upto: int) -> Seq<char>
    decreases upto,
{
    if upto <= 0 {
        Seq::empty()
    } else {
        rows_text(m, upto - 1) + cells_text(m[upto - 1], m[upto - 1].len() as int) + seq!['\n']
    }
}

/// The matrix as a program under test reads it: the number of rows on a
/// line of its own, then the rows.
pub open spec fn matrix_text(m: Seq<Seq<int>>) -> Seq<char> {
    decimal(m.len() as int) + seq!['\n'] + rows_text(m, m.len() as int)
}

/// A cell that was set to a floatizable value holds that value.
pub proof fn lemma_set_then_get(m: Seq<Seq<int>>, y: int, x: int, value: int)
    requires
        0 <= y < m.len(),
        0 <= x < m[y].len(),
        floatizable(value),
    ensures
        with_cell(m, y, x, round_trip(value))[y][x] == value,
{
}

/// Exchanging the same two rows twice gives the matrix back.
pub proof fn lemma_swap_rows_twice(m: Seq<Seq<int>>, a: int, b: int)
    requires
        0 <= a < m.len(),
        0 <= b < m.len(),
    ensures
        with_rows_swapped(with_rows_swapped(m, a, b), a, b) == m,
{
    assert(with_rows_swapped(with_rows_swapped(m, a, b), a, b) =~= m);
}

/// Adding a multiple of one row to another changes no row but the
/// receiver; the transmitter keeps its cells unless it is the receiver.
pub proof fn lemma_sum_changes_only_receiver(m: Seq<Seq<int>>, t: int, r: int, f: int)
    requires
        0 <= t < m.len(),
        0 <= r < m.len(),
    ensures
        with_rows_summed(m, t, r, f).len() == m.len(),
        forall|y: int| 0 <= y < m.len() && y != r ==> #[trigger] with_rows_summed(m, t, r, f)[y] == m[y],
        t != r ==> with_rows_summed(m, t, r, f)[t] == m[t],
        forall|x: int|
            0 <= x < m[r].len() ==> #[trigger] with_rows_summed(m, t, r, f)[r][x] == m[t][x] * f
                + m[r][x],
{
}

proof fn lemma_slot_bounds(p: int, x: int, n: int)
    requires
        0 <= p < n,
        0 <= x <= n,
    ensures
        0 <= p * (n + 1),
        0 <= slot(p, x, n) < n * (n + 1),
{
    assert(0 <= p * (n + 1)) by (nonlinear_arith)
        requires
            0 <= p,
            0 <= n,
    ;
    assert(p * (n + 1) + (n + 1) <= n * (n + 1)) by (nonlinear_arith)
        requires
            0 <= p < n,
    ;
}

proof fn lemma_slot_injective(pa: int, xa: int, pb: int, xb: int, n: int)
    requires
        0 <= pa < n,
        0 <= xa <= n,
        0 <= pb < n,
        0 <= xb <= n,
        slot(pa, xa, n) == slot(pb, xb, n),
    ensures
        pa == pb,
        xa == xb,
{
    if pa < pb {
        assert(pa * (n + 1) + (n + 1) <= pb * (n + 1)) by (nonlinear_arith)
            requires
                pa < pb,
                0 <= n,
        ;
    }
    if pb < pa {
        assert(pb * (n + 1) + (n + 1) <= pa * (n + 1)) by (nonlinear_arith)
            requires
                pb < pa,
                0 <= n,
        ;
    }
}

impl View for Matrix {
    type V = Seq<Seq<int>>;

    /// The rows in logical order.
    closed spec fn view(&self) -> Seq<Seq<int>> {
        Seq::new(
            self.n as nat,
            |y: int|
                Seq::new(
                    (self.n + 1) as nat,
                    |x: int| self.matrix@[slot(self.rows@[y] as int, x, self.n as int)] as int,
                ),
        )
    }
}

impl Matrix {
    /// The number of rows.
    pub closed spec fn size(&self) -> int {
        self.n as int
    }

    /// The storage is consistent: the row map is a permutation and every
    /// stored value is floatizable.
    pub closed spec fn inv(&self) -> bool {
        &&& 0 <= self.n
        &&& self.rows@.len() == self.n
        &&& self.matrix@.len() == self.n * (self.n + 1)
        &&& forall|i: int| 0 <= i < self.n ==> 0 <= #[trigger] self.rows@[i] < self.n
        &&& forall|i: int, j: int|
            0 <= i < self.n && 0 <= j < self.n && i != j ==> self.rows@[i] != self.rows@[j]
        &&& forall|k: int|
            0 <= k < self.matrix@.len() ==> floatizable(#[trigger] self.matrix@[k] as int)
    }

    /// The matrix is consistent and its view has the shape of an augmented
    /// matrix.
    pub open spec fn wf(&self) -> bool {
        &&& self.inv()
        &&& 0 <= self.size() <= i32::MAX
        &&& self@.len() == self.size()
        &&& well_shaped(self@)
    }

    proof fn lemma_inv_gives_shape(&self)
        requires
            self.inv(),
        ensures
            self.wf(),
    {
        assert forall|y: int| 0 <= y < self@.len() implies {
            &&& (#[trigger] self@[y]).len() == self@.len() + 1
            &&& forall|x: int| 0 <= x <= self@.len() ==> storable(#[trigger] self@[y][x])
        } by {
            assert forall|x: int| 0 <= x <= self@.len() implies storable(
                #[trigger] self@[y][x],
            ) by {
                lemma_slot_bounds(self.rows@[y] as int, x, self.n as int);
            }
        }
    }

    /// Builds the matrix of `n` rows whose cells, row by row, are the values
    /// of `cells` as they read back from storage.
    pub fn new(n: i32, cells: Vec<i32>) -> (m: Matrix)
        requires
            0 <= n,
            cells@.len() == n * (n + 1),
        ensures
            m.wf(),
            m.size() == n,
            forall|y: int, x: int|
                0 <= y < n && 0 <= x <= n ==> #[trigger] m@[y][x] == round_trip(
                    cells@[slot(y, x, n as int)] as int,
                ),
    {
        let mut matrix: Vec<i32> = cells;
        let mut k: usize = 0;
        while k < matrix.len()
            invariant
                k <= matrix@.len(),
                matrix@.len() == cells@.len(),
                forall|j: int| 0 <= j < k ==> #[trigger] matrix@[j] == round_trip(cells@[j] as int),
                forall|j: int| k <= j < matrix@.len() ==> #[trigger] matrix@[j] == cells@[j],
            decreases matrix@.len() - k,
        {
            let v: i32 = round_trip_of(matrix[k]);
            matrix.set(k, v);
            k += 1;
        }
        let rows = identity_rows(n);
        let m = Matrix { n, rows, matrix };
        proof {
            assert forall|j: int| 0 <= j < m.matrix@.len() implies floatizable(
                #[trigger] m.matrix@[j] as int,
            ) by {
                lemma_round_trip_is_floatizable(cells@[j] as int);
            }
            m.lemma_inv_gives_shape();
            assert forall|y: int, x: int| 0 <= y < n && 0 <= x <= n implies #[trigger] m@[y][x]
                == round_trip(cells@[slot(y, x, n as int)] as int) by {
                lemma_slot_bounds(y, x, n as int);
            }
        }
        m
    }

    /// Builds the matrix of `n` rows whose cells are all zero.
    pub fn new_empty(n: i32) -> (m: Matrix)
        requires
            0 <= n,
        ensures
            m.wf(),
            m.size() == n,
            forall|y: int, x: int| 0 <= y < n && 0 <= x <= n ==> #[trigger] m@[y][x] == 0,
    {
        let matrix: Vec<i32> = zero_cells(n);
        let rows = identity_rows(n);
        let m = Matrix { n, rows, matrix };
        proof {
            assert(floatizable(0));
            m.lemma_inv_gives_shape();
            assert forall|y: int, x: int| 0 <= y < n && 0 <= x <= n implies #[trigger] m@[y][x]
                == 0 by {
                lemma_slot_bounds(y, x, n as int);
            }
        }
        m
    }

    /// The number of rows.
    pub fn n(&self) -> (n: i32)
        requires
            self.wf(),
        ensures
            n == self.size(),
            0 <= n,
    {
        self.n
    }

    fn slot_of(&self, y: i32, x: i32) -> (idx: usize)
        requires
            self.inv(),
            0 <= y < self.n,
            0 <= x <= self.n,
        ensures
            idx == slot(self.rows@[y as int] as int, x as int, self.n as int),
            idx < self.matrix@.len(),
    {
        let p: i32 = self.rows[y as usize];
        let width: usize = (self.n as usize) + 1;
        let row: usize = p as usize;
        let total: usize = self.matrix.len();
        proof {
            assert(self.n * (self.n + 1) == total);
            lemma_slot_bounds(p as int, x as int, self.n as int);
            assert(row * width == p * (self.n + 1)) by (nonlinear_arith)
                requires
                    row == p,
                    width == self.n + 1,
            ;
        }
        row * width + (x as usize)
    }

    /// The cell in logical row `y`, column `x`.
    pub fn get_at(&self, y: i32, x: i32) -> (v: i32)
        requires
            self.wf(),
            0 <= y < self.size(),
            0 <= x <= self.size(),
        ensures
            v == self@[y as int][x as int],
    {
        let idx: usize = self.slot_of(y, x);
        self.matrix[idx]
    }

    /// Stores `value` in logical row `y`, column `x`. The cell then holds
    /// what `value` reads back as.
    pub fn set_at(&mut self, y: i32, x: i32, value: i32)
        requires
            old(self).wf(),
            0 <= y < old(self).size(),
            0 <= x <= old(self).size(),
        ensures
            final(self).wf(),
            final(self).size() == old(self).size(),
            final(self)@ == with_cell(old(self)@, y as int, x as int, round_trip(value as int)),
    {
        let idx: usize = self.slot_of(y, x);
        let v: i32 = round_trip_of(value);
        self.matrix.set(idx, v);
        proof {
            lemma_round_trip_is_floatizable(value as int);
            self.lemma_inv_gives_shape();
            let n = self.n as int;
            let goal = with_cell(old(self)@, y as int, x as int, v as int);
            assert forall|y2: int| 0 <= y2 < n implies #[trigger] self@[y2] =~= goal[y2] by {
                assert forall|x2: int| 0 <= x2 <= n implies #[trigger] self@[y2][x2]
                    == goal[y2][x2] by {
                    lemma_slot_bounds(self.rows@[y2] as int, x2, n);
                    if slot(self.rows@[y2] as int, x2, n) == idx {
                        lemma_slot_injective(
                            self.rows@[y2] as int,
                            x2,
                            self.rows@[y as int] as int,
                            x as int,
                            n,
                        );
                    }
                }
            }
            assert(self@ =~= goal);
        }
    }

    /// Exchanges logical rows `a` and `b`.
    pub fn swap_rows(&mut self, a: i32, b: i32)
        requires
            old(self).wf(),
            0 <= a < old(self).size(),
            0 <= b < old(self).size(),
        ensures
            final(self).wf(),
            final(self).size() == old(self).size(),
            final(self)@ == with_rows_swapped(old(self)@, a as int, b as int),
    {
        let pa: i32 = self.rows[a as usize];
        let pb: i32 = self.rows[b as usize];
        self.rows.set(a as usize, pb);
        self.rows.set(b as usize, pa);
        proof {
            self.lemma_inv_gives_shape();
            let goal = with_rows_swapped(old(self)@, a as int, b as int);
            assert forall|y: int| 0 <= y < self.n implies #[trigger] self@[y] =~= goal[y] by {}
            assert(self@ =~= goal);
        }
    }

    /// The matrix as a program under test reads it, rows in logical order.
    pub fn to_string(&self) -> (text: String)
        requires
            self.wf(),
        ensures
            text@ == matrix_text(self@),
    {
        let n: i32 = self.n;
        let mut text = String::new();
        proof {
            reveal_strlit("\n");
            reveal_strlit(" ");
        }
        push_decimal(&mut text, n);
        text.append("\n");
        let ghost head = text@;
        assert(head =~= decimal(n as int) + seq!['\n']);
        let mut y: i32 = 0;
        while y < n
            invariant
                self.wf(),
                self.size() == n,
                0 <= y <= n,
                "\n"@ == seq!['\n'],
                " "@ == seq![' '],
                text@ == head + rows_text(self@, y as int),
            decreases n - y,
        {
            let ghost before = text@;
            let mut x: i64 = 0;
            while x <= n as i64
                invariant
                    self.wf(),
                    self.size() == n,
                    0 <= y < n,
                    0 <= x <= n + 1,
                    " "@ == seq![' '],
                    text@ == before + cells_text(self@[y as int], x as int),
                decreases n + 1 - x,
            {
                push_decimal(&mut text, self.get_at(y, x as i32));
                text.append(" ");
                x += 1;
                proof {
                    assert(text@ =~= before + cells_text(self@[y as int], x as int));
                }
            }
            text.append("\n");
            y += 1;
            proof {
                assert(text@ =~= head + rows_text(self@, y as int));
            }
        }
        text
    }

    /// Puts the rows in a random order.
    pub fn shuffle_rows(&mut self, rng: &mut SmallRng)
        requires
            old(self).wf(),
        ensures
            final(self).wf(),
            final(self).size() == old(self).size(),
            is_row_permutation(old(self)@, final(self)@),
    {
        shuffle(&mut self.rows, rng);
        proof {
            let n = self.n as int;
            let before = old(self).rows@;
            let after = self.rows@;
            before.to_multiset_ensures();
            after.to_multiset_ensures();
            assert(before.no_duplicates());
            before.lemma_multiset_has_no_duplicates();
            after.lemma_multiset_has_no_duplicates_conv();
            assert(after.len() == n);
            assert forall|i: int| 0 <= i < n implies before.contains(#[trigger] after[i]) by {
                assert(after.contains(after[i]));
                assert(after.to_multiset().count(after[i]) > 0);
                assert(before.to_multiset().count(after[i]) > 0);
            }
            assert forall|j: int| 0 <= j < n implies after.contains(#[trigger] before[j]) by {
                assert(before.contains(before[j]));
                assert(before.to_multiset().count(before[j]) > 0);
                assert(after.to_multiset().count(before[j]) > 0);
            }
            assert forall|i: int| 0 <= i < n implies 0 <= #[trigger] after[i] < n by {
                let j = before.index_of(after[i]);
                assert(before[j] == after[i]);
            }
            self.lemma_inv_gives_shape();
            let p = Seq::new(n as nat, |i: int| before.index_of(after[i]));
            let q = Seq::new(n as nat, |j: int| after.index_of(before[j]));
            assert forall|i: int| 0 <= i < n implies 0 <= #[trigger] p[i] < n && q[p[i]] == i by {
                assert(before[p[i]] == after[i]);
                assert(after[q[p[i]]] == before[p[i]]);
            }
            assert forall|j: int| 0 <= j < n implies 0 <= #[trigger] q[j] < n && p[q[j]] == j by {
                assert(after[q[j]] == before[j]);
                assert(before[p[q[j]]] == after[q[j]]);
            }
            assert(inverse_permutations(p, q));
            let goal = permuted(old(self)@, p);
            assert forall|i: int| 0 <= i < n implies #[trigger] self@[i] =~= goal[i] by {
                assert(before[p[i]] == after[i]);
            }
            assert(self@ =~= goal);
        }
    }

    /// Adds `factor` times row `transmitter` to row `receiver`, column by
    /// column. If in some column the product or the sum leaves the 32-bit
    /// range, or the sum is not floatizable, the columns already written
    /// are put back and the matrix is as it was.
    pub fn sum_rows(&mut self, transmitter: i32, receiver: i32, factor: i32) -> (res: Result<
        (),
        (),
    >)
        requires
            old(self).wf(),
            0 <= transmitter < old(self).size(),
            0 <= receiver < old(self).size(),
        ensures
            final(self).wf(),
            final(self).size() == old(self).size(),
            res is Ok <==> sum_fits(old(self)@, transmitter as int, receiver as int, factor as int),
            res is Ok ==> final(self)@ == with_rows_summed(
                old(self)@,
                transmitter as int,
                receiver as int,
                factor as int,
            ),
            res is Err ==> final(self)@ == old(self)@,
    {
        let n: i32 = self.n;
        let ghost start = self@;
        let ghost t = transmitter as int;
        let ghost r = receiver as int;
        let ghost f = factor as int;
        let mut before: Vec<i32> = Vec::new();
        let mut failed = false;
        let mut x: i64 = 0;
        proof {
            assert(self@ =~~= start.update(r, partly_summed_row(start, t, r, f, 0, 0)));
        }
        while !failed && x <= n as i64
            invariant
                self.wf(),
                old(self).wf(),
                start == old(self)@,
                self.size() == n,
                old(self).size() == n,
                0 <= t < n,
                0 <= r < n,
                t == transmitter,
                r == receiver,
                f == factor,
                0 <= x <= n + 1,
                failed ==> x <= n && !column_fits(start, t, r, f, x as int),
                before@.len() == x,
                forall|j: int| 0 <= j < x ==> #[trigger] before@[j] == start[r][j],
                forall|j: int| 0 <= j < x ==> column_fits(start, t, r, f, j),
                self@ == start.update(r, partly_summed_row(start, t, r, f, 0, x as int)),
            decreases (if failed { 0int } else { 1int }), n + 1 - x,
        {
            let col: i32 = x as i32;
            let a = self.get_at(transmitter, col).checked_mul(factor);
            let b: i32 = self.get_at(receiver, col);
            assert(b == start[r][x as int]);
            match a {
                None => {
                    failed = true;
                },
                Some(product) => {
                    match product.checked_add(b) {
                        None => {
                            failed = true;
                        },
                        Some(sum) => {
                            if !is_floatizable(sum) {
                                failed = true;
                            } else {
                                before.push(b);
                                self.set_at(receiver, col, sum);
                                x = x + 1;
                                proof {
                                    assert(self@ =~~= start.update(
                                        r,
                                        partly_summed_row(start, t, r, f, 0, x as int),
                                    ));
                                }
                            }
                        },
                    }
                },
            }
        }
        if failed {
            let mut idx: usize = 0;
            while idx < before.len()
                invariant
                    self.wf(),
                    self.size() == n,
                    well_shaped(start),
                    start.len() == n,
                    0 <= r < n,
                    r == receiver,
                    0 <= idx <= before@.len(),
                    before@.len() == x,
                    x <= n,
                    forall|j: int| 0 <= j < x ==> #[trigger] before@[j] == start[r][j],
                    self@ == start.update(r, partly_summed_row(start, t, r, f, idx as int, x as int)),
                decreases before@.len() - idx,
            {
                let v: i32 = before[idx];
                self.set_at(receiver, idx as i32, v);
                idx += 1;
                proof {
                    assert(storable(start[r][idx - 1]));
                    assert(self@ =~~= start.update(
                        r,
                        partly_summed_row(start, t, r, f, idx as int, x as int),
                    ));
                }
            }
            proof {
                assert(self@ =~~= start);
            }
            return Err(());
        }
        Ok(())
    }
}

/// The storage of a matrix of `n` rows whose cells are all zero, filled
/// row by row.
fn zero_cells(n: i32) -> (cells: Vec<i32>)
    requires
        0 <= n,
    ensures
        cells@.len() == n * (n + 1),
        forall|k: int| 0 <= k < cells@.len() ==> #[trigger] cells@[k] == 0,
{
    let mut cells: Vec<i32> = Vec::new();
    let mut y: i32 = 0;
    while y < n
        invariant
            0 <= y <= n,
            cells@.len() == y * (n + 1),
            forall|k: int| 0 <= k < cells@.len() ==> #[trigger] cells@[k] == 0,
        decreases n - y,
    {
        let mut x: i64 = 0;
        while x <= n as i64
            invariant
                0 <= y < n,
                0 <= x <= n + 1,
                cells@.len() == y * (n + 1) + x,
                forall|k: int| 0 <= k < cells@.len() ==> #[trigger] cells@[k] == 0,
            decreases n + 1 - x,
        {
            cells.push(0);
            x += 1;
        }
        proof {
            assert((y + 1) * (n + 1) == y * (n + 1) + (n + 1)) by (nonlinear_arith);
        }
        y += 1;
    }
    cells
}

/// The row map that sends every logical row to the storage row of the same
/// number.
fn identity_rows(n: i32) -> (rows: Vec<i32>)
    requires
        0 <= n,
    ensures
        rows@.len() == n,
        forall|i: int| 0 <= i < n ==> #[trigger] rows@[i] == i,
{
    let mut rows: Vec<i32> = Vec::new();
    let mut i: i32 = 0;
    while i < n
        invariant
            0 <= i <= n,
            rows@.len() == i,
            forall|j: int| 0 <= j < i ==> #[trigger] rows@[j] == j,
        decreases n - i,
    {
        rows.push(i);
        i += 1;
    }
    rows
}

} // verus!
