//! The fixture generator: systems drawn at random whose answer is known
//! from the way they were built.
use crate::base::tests_supply::{Test, TestsNode, TestsSupplier};
use crate::slae::answer::{denominators, numerators, Answer, Ratio};
use crate::slae::floatizable::{floatizable, is_floatizable, lemma_small_is_floatizable};
use crate::slae::linear::{
    dot, dot_upto, free_direction, has_diagonal_kernel, in_kernel, inconsistent,
    is_diagonal_system, is_row_permutation, lemma_diagonal_kernel_carries,
    lemma_diagonal_system_kernel, lemma_row_permutation_keeps_kernel,
    lemma_same_kernel_same_verdict, lemma_same_kernel_transitive,
    lemma_same_order_is_row_permutation, lemma_sum_keeps_kernel,
    lemma_zero_equals_nonzero_is_inconsistent, lemma_zero_row_is_underdetermined, same_kernel,
    underdetermined,
};
use crate::slae::matrix::{slot, sum_fits, with_rows_summed, Matrix};
use crate::slae::random::{gen_range, gen_ratio};
use rand::rngs::SmallRng;
use std::ops::Range;
use vstd::prelude::*;

verus! {

/// How often a sampler draws before it stops drawing and takes the least
/// value of the range that will do. A sampler that draws until a value
/// suits has no bound on its running time; with this bound it always
/// returns, and a range that holds a suitable value is all it asks for.
pub const SAMPLING_ATTEMPTS: u32 = 65536;

/// Some value from `low` up to, not including, `high` is floatizable.
pub open spec fn holds_floatizable(low: int, high: int) -> bool {
    exists|v: int| low <= v < high && #[trigger] floatizable(v)
}

/// Some value from `low` up to, not including, `high` is floatizable and
/// not zero.
pub open spec fn holds_nonzero_floatizable(low: int, high: int) -> bool {
    exists|v: int| low <= v < high && v != 0 && #[trigger] floatizable(v)
}

/// A fixture of the tree that the generator builds.
pub type Fixture = Test<Matrix, Answer<Ratio>>;

/// A group of the tree that the generator builds.
pub type Group = TestsNode<Matrix, Answer<Ratio>>;

/// The system has infinitely many solutions, and the fixture says so.
pub open spec fn many_fixture(t: Fixture) -> bool {
    &&& t.input.wf()
    &&& t.output is MANY
    &&& underdetermined(t.input@)
}

/// The system has no solution, and the fixture says so.
pub open spec fn none_fixture(t: Fixture) -> bool {
    &&& t.input.wf()
    &&& t.output is NONE
    &&& inconsistent(t.input@)
}

/// The system has the solutions of the diagonal system `den * x = num`
/// that the fixture's ratios spell out: the one point with the
/// coordinates `num / den`.
pub open spec fn unique_fixture(t: Fixture) -> bool {
    &&& t.input.wf()
    &&& t.output matches Answer::FOUND(v)
    &&& v@.len() == t.input.size()
    &&& forall|i: int| 0 <= i < v@.len() ==> (#[trigger] v@[i]).den != 0
    &&& has_diagonal_kernel(t.input@, denominators(v@), numerators(v@))
}

/// The first `upto` values of `s` lie from `low` up to, not including,
/// `high`.
pub open spec fn all_within(s: Seq<int>, upto: int, low: int, high: int) -> bool {
    forall|j: int| 0 <= j < upto ==> low <= #[trigger] s[j] < high
}

/// None of the first `upto` values of `s` is zero.
pub open spec fn none_zero(s: Seq<int>, upto: int) -> bool {
    forall|j: int| 0 <= j < upto ==> #[trigger] s[j] != 0
}

/// `m` is what shuffling makes of the diagonal system `d[y] * x[y] =
/// rhs[y]`, with factors below `max_factor` and fewer row sums than
/// `max_sums` for each row.
pub open spec fn shuffled_system(
    m: Seq<Seq<int>>,
    d: Seq<int>,
    rhs: Seq<int>,
    max_factor: int,
    max_sums: int,
) -> bool {
    exists|built: Seq<Seq<int>>|
        is_diagonal_system(built, d, rhs) && #[trigger] is_shuffle_of(
            built,
            m,
            max_factor,
            m.len() * max_sums,
        )
}

/// `d` and `rhs` are a draw for a system of `n` rows with infinitely many
/// solutions: the last row is zero; above it the diagonal comes from the
/// diagonal range and the right-hand side from the value range, neither
/// with a zero.
pub open spec fn many_drawn(
    d: Seq<int>,
    rhs: Seq<int>,
    n: int,
    answer_low: int,
    answer_high: int,
    divider_low: int,
    divider_high: int,
) -> bool {
    &&& n > 0
    &&& d.len() == n
    &&& rhs.len() == n
    &&& d[n - 1] == 0
    &&& rhs[n - 1] == 0
    &&& all_within(d, n - 1, divider_low, divider_high)
    &&& none_zero(d, n - 1)
    &&& all_within(rhs, n - 1, answer_low, answer_high)
    &&& none_zero(rhs, n - 1)
}

/// `d` and `rhs` are a draw for a system of `n` rows with no solution:
/// the last row has zero on the diagonal and a right-hand side from the
/// value range that is not zero; above it the diagonal comes from the
/// diagonal range, with no zero, and the right-hand side from the value
/// range.
pub open spec fn none_drawn(
    d: Seq<int>,
    rhs: Seq<int>,
    n: int,
    answer_low: int,
    answer_high: int,
    divider_low: int,
    divider_high: int,
) -> bool {
    &&& n > 0
    &&& d.len() == n
    &&& rhs.len() == n
    &&& d[n - 1] == 0
    &&& rhs[n - 1] != 0
    &&& all_within(d, n - 1, divider_low, divider_high)
    &&& none_zero(d, n - 1)
    &&& all_within(rhs, n, answer_low, answer_high)
}

/// `d` and `rhs` are a draw for a system of `n` rows with one solution:
/// the diagonal comes from the diagonal range, with no zero, and the
/// right-hand side from the value range.
pub open spec fn unique_drawn(
    d: Seq<int>,
    rhs: Seq<int>,
    n: int,
    answer_low: int,
    answer_high: int,
    divider_low: int,
    divider_high: int,
) -> bool {
    &&& d.len() == n
    &&& rhs.len() == n
    &&& all_within(d, n, divider_low, divider_high)
    &&& none_zero(d, n)
    &&& all_within(rhs, n, answer_low, answer_high)
}

/// A fixture of the many-answer family: the system has infinitely many
/// solutions, the fixture says so, and the matrix is a shuffled diagonal
/// system drawn from the ranges.
pub open spec fn many_family_fixture(
    t: Fixture,
    answer_low: int,
    answer_high: int,
    divider_low: int,
    divider_high: int,
    max_factor: int,
    max_sums: int,
) -> bool {
    &&& many_fixture(t)
    &&& exists|d: Seq<int>, rhs: Seq<int>|
        many_drawn(d, rhs, t.input.size(), answer_low, answer_high, divider_low, divider_high)
            && #[trigger] shuffled_system(t.input@, d, rhs, max_factor, max_sums)
}

/// A fixture of the no-answer family: the system has no solution, the
/// fixture says so, and the matrix is a shuffled diagonal system drawn
/// from the ranges.
pub open spec fn none_family_fixture(
    t: Fixture,
    answer_low: int,
    answer_high: int,
    divider_low: int,
    divider_high: int,
    max_factor: int,
    max_sums: int,
) -> bool {
    &&& none_fixture(t)
    &&& exists|d: Seq<int>, rhs: Seq<int>|
        none_drawn(d, rhs, t.input.size(), answer_low, answer_high, divider_low, divider_high)
            && #[trigger] shuffled_system(t.input@, d, rhs, max_factor, max_sums)
}

/// A fixture of the one-answer family: the matrix is a shuffled diagonal
/// system drawn from the ranges, and the fixture's ratios are the
/// quotients of its right-hand side and its diagonal, which are its one
/// solution.
pub open spec fn unique_family_fixture(
    t: Fixture,
    answer_low: int,
    answer_high: int,
    divider_low: int,
    divider_high: int,
    max_factor: int,
    max_sums: int,
) -> bool {
    &&& unique_fixture(t)
    &&& unique_drawn(
        denominators(t.output.values()),
        numerators(t.output.values()),
        t.input.size(),
        answer_low,
        answer_high,
        divider_low,
        divider_high,
    )
    &&& shuffled_system(
        t.input@,
        denominators(t.output.values()),
        numerators(t.output.values()),
        max_factor,
        max_sums,
    )
}

/// What every family asks of its parameters: at least one row, a row
/// sum to draw, and factors to draw from wherever more than one value can
/// be drawn for the number of row sums.
pub open spec fn family_parameters(size: Range<i32>, max_factor: i32, max_sums: i32) -> bool {
    &&& 1 <= size.start < size.end
    &&& 1 <= max_sums
    &&& (size.end > 2 || max_sums > 1) ==> 1 <= max_factor
}

/// The bound on the number of row sums for a matrix of `n` rows:
/// `max_sums` for each row, held down to the largest 32-bit integer.
pub open spec fn sums_bound(n: int, max_sums: int) -> int {
    if n * max_sums <= i32::MAX {
        n * max_sums
    } else {
        i32::MAX as int
    }
}

/// `after` is `before` with `count` fixtures added, each of `size.start`
/// to `size.end - 1` rows and each as `verdict` asks.
pub open spec fn grown_by(
    before: Group,
    after: Group,
    count: int,
    size: Range<i32>,
    verdict: spec_fn(Fixture) -> bool,
) -> bool {
    &&& after.name == before.name
    &&& after.children == before.children
    &&& after.tests@.len() == before.tests@.len() + count
    &&& forall|k: int| 0 <= k < before.tests@.len() ==> #[trigger] after.tests@[k] == before.tests@[k]
    &&& forall|k: int|
        before.tests@.len() <= k < after.tests@.len() ==> {
            &&& size.start <= (#[trigger] after.tests@[k]).input.size() < size.end
            &&& verdict(after.tests@[k])
        }
}

/// The rows of the fixture that is written out by hand.
pub open spec fn hand_made_rows() -> Seq<Seq<int>> {
    seq![seq![1int, 2, 3, 4], seq![5int, 6, 7, 8], seq![9int, 10, 11, 12]]
}

/// `node` is a group named `name` with `count` fixtures and no groups
/// below it; each fixture has `low` to `high - 1` rows and is as `verdict`
/// asks.
pub open spec fn is_family(
    node: Group,
    name: Seq<char>,
    count: int,
    low: int,
    high: int,
    verdict: spec_fn(Fixture) -> bool,
) -> bool {
    &&& node.name@ == name
    &&& node.children@.len() == 0
    &&& node.tests@.len() == count
    &&& forall|k: int|
        0 <= k < count ==> {
            &&& low <= (#[trigger] node.tests@[k]).input.size() < high
            &&& verdict(node.tests@[k])
        }
}

/// `root` is the tree that the generator builds: the fixture written out
/// by hand, then six families drawn at random.
pub open spec fn is_supplied_tree(root: Group) -> bool {
    &&& root.name@ == "root"@
    &&& root.tests@.len() == 0
    &&& root.children@.len() == 7
    &&& is_family(root.children@[0], "hand-made"@, 1, 3, 4, |t: Fixture| many_fixture(t))
    &&& root.children@[0].tests@[0].input@ == hand_made_rows()
    &&& is_family(
        root.children@[1],
        "random many answer long"@,
        40,
        5,
        6,
        |t: Fixture| many_family_fixture(t, -100, 100, 1, 30, 4, 10),
    )
    &&& is_family(
        root.children@[2],
        "random one answer simple"@,
        200,
        1,
        6,
        |t: Fixture| unique_family_fixture(t, -10, 10, 1, 2, 2, 2),
    )
    &&& is_family(
        root.children@[3],
        "random one answer long"@,
        40,
        5,
        10,
        |t: Fixture| unique_family_fixture(t, -100, 100, 1, 30, 10, 10),
    )
    &&& is_family(
        root.children@[4],
        "random no answer short"@,
        200,
        2,
        6,
        |t: Fixture| none_family_fixture(t, -10, 10, 1, 2, 2, 2),
    )
    &&& is_family(
        root.children@[5],
        "random no answer long"@,
        40,
        5,
        10,
        |t: Fixture| none_family_fixture(t, -100, 100, 1, 30, 10, 10),
    )
    &&& is_family(
        root.children@[6],
        "random many answer short"@,
        200,
        2,
        6,
        |t: Fixture| many_family_fixture(t, -10, 10, 1, 2, 2, 2),
    )
}

proof fn lemma_family_sizes(n: int, size_end: int, max_factor: int, max_sums: int)
    requires
        1 <= n < size_end,
        1 <= max_sums,
        (size_end > 2 || max_sums > 1) ==> 1 <= max_factor,
    ensures
        1 <= sums_bound(n, max_sums) <= n * max_sums,
        sums_bound(n, max_sums) > 1 ==> 0 < max_factor,
{
    assert(1 <= n * max_sums) by (nonlinear_arith)
        requires
            1 <= n,
            1 <= max_sums,
    ;
    if n == 1 && max_sums == 1 {
        assert(n * max_sums == 1);
    }
}

proof fn lemma_shuffle_with_more_sums(
    before: Seq<Seq<int>>,
    after: Seq<Seq<int>>,
    max_factor: int,
    fewer: int,
    more: int,
)
    requires
        is_shuffle_of(before, after, max_factor, fewer),
        fewer <= more,
    ensures
        is_shuffle_of(before, after, max_factor, more),
{
    let sums = choose|sums: Seq<(int, int, int)>|
        drawable_sums(sums, before.len() as int, max_factor, fewer) && is_row_permutation(
            #[trigger] after_sums(before, sums),
            after,
        );
    assert(drawable_sums(sums, before.len() as int, max_factor, more));
}

/// The bound on the number of row sums for a matrix of `n` rows.
fn sums_for(n: i32, max_sums: i32) -> (sums: i32)
    requires
        1 <= n,
        1 <= max_sums,
    ensures
        sums == sums_bound(n as int, max_sums as int),
{
    proof {
        assert(0 <= n * max_sums) by (nonlinear_arith)
            requires
                1 <= n,
                1 <= max_sums,
        ;
    }
    match n.checked_mul(max_sums) {
        Some(sums) => sums,
        None => i32::MAX,
    }
}

proof fn lemma_dot_of_four(row: Seq<int>, w: Seq<int>)
    requires
        row.len() == 4,
    ensures
        dot(row, w) == row[0] * w[0] + row[1] * w[1] + row[2] * w[2] + row[3] * w[3],
{
    reveal_with_fuel(dot_upto, 6);
}

proof fn lemma_hand_made_is_underdetermined()
    ensures
        underdetermined(hand_made_rows()),
{
    let m = hand_made_rows();
    let h = seq![1int, -2, 1, 0];
    let w = seq![-2int, 3, 0, -1];
    assert forall|y: int| 0 <= y < 3 implies dot(#[trigger] m[y], h) == 0 && dot(m[y], w) == 0 by {
        lemma_dot_of_four(m[y], h);
        lemma_dot_of_four(m[y], w);
        assert(m[0] =~= seq![1int, 2, 3, 4]);
        assert(m[1] =~= seq![5int, 6, 7, 8]);
        assert(m[2] =~= seq![9int, 10, 11, 12]);
    }
    assert(in_kernel(m, h));
    assert(in_kernel(m, w));
    assert(h[0] != 0);
    assert(free_direction(m, h));
    assert(w[3] != 0);
}

/// The least value of the range that is floatizable and, if `nonzero`, not
/// zero.
fn least_floatizable(low: i32, high: i32, nonzero: bool) -> (v: i32)
    requires
        if nonzero {
            holds_nonzero_floatizable(low as int, high as int)
        } else {
            holds_floatizable(low as int, high as int)
        },
    ensures
        low <= v < high,
        floatizable(v as int),
        nonzero ==> v != 0,
{
    let ghost w: int = if nonzero {
        choose|w: int| low <= w < high && w != 0 && #[trigger] floatizable(w)
    } else {
        choose|w: int| low <= w < high && #[trigger] floatizable(w)
    };
    let mut v: i32 = low;
    while !(is_floatizable(v) && (!nonzero || v != 0))
        invariant
            low <= v <= w < high,
            floatizable(w),
            nonzero ==> w != 0,
        decreases w - v,
    {
        v += 1;
    }
    v
}

/// `m` after the row sums `sums` were tried on it one after the other.
/// Each is a transmitter row, a receiver row and a factor; one that does
/// not fit leaves the matrix as it was.
pub open spec fn after_sums(m: Seq<Seq<int>>, sums: Seq<(int, int, int)>) -> Seq<Seq<int>>
    decreases sums.len(),
{
    if sums.len() == 0 {
        m
    } else {
        let before = after_sums(m, sums.drop_last());
        let (t, r, f) = sums.last();
        if sum_fits(before, t, r, f) {
            with_rows_summed(before, t, r, f)
        } else {
            before
        }
    }
}

/// `sums` can be drawn for a matrix of `n` rows: fewer than `max_sums`
/// row sums, each between two of the rows and with a factor from zero up
/// to, not including, `max_factor`.
pub open spec fn drawable_sums(
    sums: Seq<(int, int, int)>,
    n: int,
    max_factor: int,
    max_sums: int,
) -> bool {
    &&& sums.len() < max_sums
    &&& forall|i: int|
        0 <= i < sums.len() ==> {
            &&& 0 <= (#[trigger] sums[i]).0 < n
            &&& 0 <= sums[i].1 < n
            &&& 0 <= sums[i].2 < max_factor
        }
}

/// `after` can come of shuffling `before`: it holds, in some order, the
/// rows that `before` has after row sums that can be drawn were tried on
/// it.
pub open spec fn is_shuffle_of(
    before: Seq<Seq<int>>,
    after: Seq<Seq<int>>,
    max_factor: int,
    max_sums: int,
) -> bool {
    exists|sums: Seq<(int, int, int)>|
        drawable_sums(sums, before.len() as int, max_factor, max_sums) && is_row_permutation(
            #[trigger] after_sums(before, sums),
            after,
        )
}

/// Shuffles the matrix with row operations that keep the solutions. It
/// draws a number below `max_sums` and tries that many row sums, each
/// between two rows drawn at random and with a factor drawn from zero up
/// to, not including, `max_factor`; a sum that does not fit is left out.
/// Then, nine times in ten, it puts the rows in a random order.
pub fn shuffle_matrix(matrix: &mut Matrix, rng: &mut SmallRng, max_factor: i32, max_sums: i32)
    requires
        old(matrix).wf(),
        0 < max_sums,
        max_sums > 1 ==> 0 < max_factor && 0 < old(matrix).size(),
    ensures
        final(matrix).wf(),
        final(matrix).size() == old(matrix).size(),
        is_shuffle_of(old(matrix)@, final(matrix)@, max_factor as int, max_sums as int),
        same_kernel(old(matrix)@, final(matrix)@),
{
    let sums: i32 = gen_range(rng, 0, max_sums);
    let n: i32 = matrix.n();
    let ghost mut tried: Seq<(int, int, int)> = Seq::empty();
    let mut done: i32 = 0;
    while done < sums
        invariant
            matrix.wf(),
            matrix.size() == n,
            old(matrix).wf(),
            old(matrix).size() == n,
            0 <= done <= sums < max_sums,
            sums > 0 ==> 0 < max_factor && 0 < n,
            tried.len() == done,
            drawable_sums(tried, n as int, max_factor as int, max_sums as int),
            matrix@ == after_sums(old(matrix)@, tried),
            same_kernel(old(matrix)@, matrix@),
        decreases sums - done,
    {
        let a: i32 = gen_range(rng, 0, n);
        let b: i32 = gen_range(rng, 0, n);
        let factor: i32 = gen_range(rng, 0, max_factor);
        let ghost before = matrix@;
        let outcome = matrix.sum_rows(a, b, factor);
        proof {
            if outcome is Ok {
                lemma_sum_keeps_kernel(before, a as int, b as int, factor as int);
            }
            lemma_same_kernel_transitive(old(matrix)@, before, matrix@);
            let next = tried.push((a as int, b as int, factor as int));
            assert(next.drop_last() =~= tried);
            assert(next.last() == (a as int, b as int, factor as int));
            assert(matrix@ == after_sums(old(matrix)@, next));
            tried = next;
        }
        done += 1;
    }
    let ghost summed = matrix@;
    if gen_ratio(rng, 9, 10) {
        matrix.shuffle_rows(rng);
        proof {
            lemma_row_permutation_keeps_kernel(summed, matrix@);
            lemma_same_kernel_transitive(old(matrix)@, summed, matrix@);
        }
    } else {
        proof {
            lemma_same_order_is_row_permutation(summed);
        }
    }
    proof {
        assert(is_row_permutation(after_sums(old(matrix)@, tried), matrix@));
    }
}

/// The generator of fixtures for solvers of linear systems.
pub struct SLAESupplier {}

impl SLAESupplier {
    /// A generator. It holds nothing: all that varies comes from the
    /// random number generator that it is handed.
    pub fn new() -> (supplier: SLAESupplier) {
        SLAESupplier {  }
    }

    /// Draws from `range` until the value drawn is floatizable. After
    /// `SAMPLING_ATTEMPTS` draws it draws no more and gives the least
    /// floatizable value of the range.
    pub fn nice_floatizible(&self, rng: &mut SmallRng, range: Range<i32>) -> (v: i32)
        requires
            holds_floatizable(range.start as int, range.end as int),
        ensures
            range.start <= v < range.end,
            floatizable(v as int),
    {
        let mut attempts: u32 = 0;
        while attempts < SAMPLING_ATTEMPTS
            invariant
                range.start < range.end,
            decreases SAMPLING_ATTEMPTS - attempts,
        {
            let ans: i32 = gen_range(rng, range.start, range.end);
            if is_floatizable(ans) {
                return ans;
            }
            attempts += 1;
        }
        least_floatizable(range.start, range.end, false)
    }

    /// Draws floatizable values from `range` until one is not zero. After
    /// `SAMPLING_ATTEMPTS` zeros it draws no more and gives the least
    /// floatizable value of the range that is not zero.
    pub fn non_zero(&self, rng: &mut SmallRng, range: Range<i32>) -> (v: i32)
        requires
            holds_nonzero_floatizable(range.start as int, range.end as int),
        ensures
            range.start <= v < range.end,
            floatizable(v as int),
            v != 0,
    {
        let mut attempts: u32 = 0;
        while attempts < SAMPLING_ATTEMPTS
            invariant
                holds_floatizable(range.start as int, range.end as int),
            decreases SAMPLING_ATTEMPTS - attempts,
        {
            let ans: i32 = self.nice_floatizible(rng, range.start..range.end);
            if ans != 0 {
                return ans;
            }
            attempts += 1;
        }
        least_floatizable(range.start, range.end, true)
    }

    /// Adds the fixture that is written out by hand: three proportional
    /// rows, infinitely many solutions.
    pub fn hand_made(&self, node: &mut Group)
        ensures
            final(node).name == old(node).name,
            final(node).children == old(node).children,
            final(node).tests@.len() == old(node).tests@.len() + 1,
            forall|k: int|
                0 <= k < old(node).tests@.len() ==> #[trigger] final(node).tests@[k] == old(
                    node,
                ).tests@[k],
            final(node).tests@[old(node).tests@.len() as int].input@ == hand_made_rows(),
            final(node).tests@[old(node).tests@.len() as int].input.size() == 3,
            many_fixture(final(node).tests@[old(node).tests@.len() as int]),
    {
        let cells: Vec<i32> = vec![1, 2, 3, 4, 5, 6, 7, 8, 9, 10, 11, 12];
        let matrix = Matrix::new(3, cells);
        proof {
            let goal = hand_made_rows();
            assert forall|y: int, x: int| 0 <= y < 3 && 0 <= x <= 3 implies #[trigger] matrix@[y][x]
                == goal[y][x] by {
                lemma_small_is_floatizable(cells@[slot(y, x, 3)] as int);
            }
            assert(matrix@[0] =~= goal[0]);
            assert(matrix@[1] =~= goal[1]);
            assert(matrix@[2] =~= goal[2]);
            assert(matrix@ =~= goal);
            lemma_hand_made_is_underdetermined();
        }
        node.add_test(Test::new(matrix, Answer::MANY));
    }

    /// Adds `num` systems with infinitely many solutions: a diagonal
    /// system whose last row is zero, shuffled. The number of rows is drawn
    /// from `size`; above the last row, the diagonal is drawn from
    /// `divider` and the right-hand side from `answer_range`, neither with
    /// a zero. The shuffle draws factors below `max_factor` and fewer row
    /// sums than `max_sums` for each row, at most the largest 32-bit
    /// integer.
    pub fn random_many_answer(
        &self,
        node: &mut Group,
        rng: &mut SmallRng,
        num: usize,
        size: Range<i32>,
        answer_range: Range<i32>,
        divider: Range<i32>,
        max_factor: i32,
        max_sums: i32,
    )
        requires
            family_parameters(size, max_factor, max_sums),
            holds_nonzero_floatizable(answer_range.start as int, answer_range.end as int),
            holds_nonzero_floatizable(divider.start as int, divider.end as int),
        ensures
            grown_by(
                *old(node),
                *final(node),
                num as int,
                size,
                |t: Fixture|
                    many_family_fixture(
                        t,
                        answer_range.start as int,
                        answer_range.end as int,
                        divider.start as int,
                        divider.end as int,
                        max_factor as int,
                        max_sums as int,
                    ),
            ),
    {
        let mut made: usize = 0;
        while made < num
            invariant
                made <= num,
                family_parameters(size, max_factor, max_sums),
                holds_nonzero_floatizable(answer_range.start as int, answer_range.end as int),
                holds_nonzero_floatizable(divider.start as int, divider.end as int),
                grown_by(
                    *old(node),
                    *node,
                    made as int,
                    size,
                    |t: Fixture|
                    many_family_fixture(
                        t,
                        answer_range.start as int,
                        answer_range.end as int,
                        divider.start as int,
                        divider.end as int,
                        max_factor as int,
                        max_sums as int,
                    ),
                ),
            decreases num - made,
        {
            let n: i32 = gen_range(rng, size.start, size.end);
            proof {
                lemma_family_sizes(n as int, size.end as int, max_factor as int, max_sums as int);
            }
            let mut matrix = Matrix::new_empty(n);
            let ghost mut d: Seq<int> = Seq::new(n as nat, |i: int| 0int);
            let ghost mut rhs: Seq<int> = Seq::new(n as nat, |i: int| 0int);
            let mut i: i32 = 0;
            while i < n - 1
                invariant
                    0 <= i <= n - 1,
                    matrix.wf(),
                    matrix.size() == n,
                    is_diagonal_system(matrix@, d, rhs),
                    d.len() == n,
                    rhs.len() == n,
                    none_zero(d, i as int),
                    all_within(d, i as int, divider.start as int, divider.end as int),
                    d[n - 1] == 0,
                    rhs[n - 1] == 0,
                    holds_nonzero_floatizable(divider.start as int, divider.end as int),
                decreases n - i,
            {
                let v: i32 = self.non_zero(rng, divider.start..divider.end);
                matrix.set_at(i, i, v);
                proof {
                    d = d.update(i as int, v as int);
                }
                i += 1;
            }
            i = 0;
            while i < n - 1
                invariant
                    0 <= i <= n - 1,
                    matrix.wf(),
                    matrix.size() == n,
                    is_diagonal_system(matrix@, d, rhs),
                    d.len() == n,
                    rhs.len() == n,
                    none_zero(d, n - 1),
                    all_within(d, n - 1, divider.start as int, divider.end as int),
                    none_zero(rhs, i as int),
                    all_within(rhs, i as int, answer_range.start as int, answer_range.end as int),
                    d[n - 1] == 0,
                    rhs[n - 1] == 0,
                    holds_nonzero_floatizable(answer_range.start as int, answer_range.end as int),
                decreases n - i,
            {
                let v: i32 = self.non_zero(rng, answer_range.start..answer_range.end);
                matrix.set_at(i, n, v);
                proof {
                    rhs = rhs.update(i as int, v as int);
                }
                i += 1;
            }
            let sums: i32 = sums_for(n, max_sums);
            let ghost built = matrix@;
            proof {
                lemma_diagonal_system_kernel(built, d, rhs);
                lemma_zero_row_is_underdetermined(built, d, rhs);
            }
            shuffle_matrix(&mut matrix, rng, max_factor, sums);
            proof {
                lemma_same_kernel_same_verdict(built, matrix@);
                lemma_shuffle_with_more_sums(
                    built,
                    matrix@,
                    max_factor as int,
                    sums as int,
                    n * max_sums,
                );
                assert(matrix@.len() * max_sums == n * max_sums);
                assert(shuffled_system(matrix@, d, rhs, max_factor as int, max_sums as int));
            }
            node.add_test(Test::new(matrix, Answer::MANY));
            made += 1;
        }
    }

    /// Adds `num` systems with no solution: a diagonal system whose last
    /// row reads zero on the left and not zero on the right, shuffled. The
    /// number of rows is drawn from `size`; above the last row, the
    /// diagonal is drawn from `divider`, with no zero; the right-hand side
    /// is drawn from `answer_range`. The shuffle draws factors below
    /// `max_factor` and fewer row sums than `max_sums` for each row, at
    /// most the largest 32-bit integer.
    pub fn random_no_answer(
        &self,
        node: &mut Group,
        rng: &mut SmallRng,
        num: usize,
        size: Range<i32>,
        answer_range: Range<i32>,
        divider: Range<i32>,
        max_factor: i32,
        max_sums: i32,
    )
        requires
            family_parameters(size, max_factor, max_sums),
            holds_nonzero_floatizable(answer_range.start as int, answer_range.end as int),
            holds_nonzero_floatizable(divider.start as int, divider.end as int),
        ensures
            grown_by(
                *old(node),
                *final(node),
                num as int,
                size,
                |t: Fixture|
                    none_family_fixture(
                        t,
                        answer_range.start as int,
                        answer_range.end as int,
                        divider.start as int,
                        divider.end as int,
                        max_factor as int,
                        max_sums as int,
                    ),
            ),
    {
        let mut made: usize = 0;
        while made < num
            invariant
                made <= num,
                family_parameters(size, max_factor, max_sums),
                holds_nonzero_floatizable(answer_range.start as int, answer_range.end as int),
                holds_nonzero_floatizable(divider.start as int, divider.end as int),
                grown_by(
                    *old(node),
                    *node,
                    made as int,
                    size,
                    |t: Fixture|
                    none_family_fixture(
                        t,
                        answer_range.start as int,
                        answer_range.end as int,
                        divider.start as int,
                        divider.end as int,
                        max_factor as int,
                        max_sums as int,
                    ),
                ),
            decreases num - made,
        {
            let n: i32 = gen_range(rng, size.start, size.end);
            proof {
                lemma_family_sizes(n as int, size.end as int, max_factor as int, max_sums as int);
            }
            let mut matrix = Matrix::new_empty(n);
            let ghost mut d: Seq<int> = Seq::new(n as nat, |i: int| 0int);
            let ghost mut rhs: Seq<int> = Seq::new(n as nat, |i: int| 0int);
            let mut i: i32 = 0;
            while i < n - 1
                invariant
                    0 <= i <= n - 1,
                    matrix.wf(),
                    matrix.size() == n,
                    is_diagonal_system(matrix@, d, rhs),
                    d.len() == n,
                    rhs.len() == n,
                    none_zero(d, i as int),
                    all_within(d, i as int, divider.start as int, divider.end as int),
                    d[n - 1] == 0,
                    holds_nonzero_floatizable(divider.start as int, divider.end as int),
                decreases n - i,
            {
                let v: i32 = self.non_zero(rng, divider.start..divider.end);
                matrix.set_at(i, i, v);
                proof {
                    d = d.update(i as int, v as int);
                }
                i += 1;
            }
            i = 0;
            while i < n - 1
                invariant
                    0 <= i <= n - 1,
                    matrix.wf(),
                    matrix.size() == n,
                    is_diagonal_system(matrix@, d, rhs),
                    d.len() == n,
                    rhs.len() == n,
                    none_zero(d, n - 1),
                    all_within(d, n - 1, divider.start as int, divider.end as int),
                    all_within(rhs, i as int, answer_range.start as int, answer_range.end as int),
                    d[n - 1] == 0,
                    holds_nonzero_floatizable(answer_range.start as int, answer_range.end as int),
                decreases n - i,
            {
                let v: i32 = self.nice_floatizible(rng, answer_range.start..answer_range.end);
                matrix.set_at(i, n, v);
                proof {
                    rhs = rhs.update(i as int, v as int);
                }
                i += 1;
            }
            let ans: i32 = self.non_zero(rng, answer_range.start..answer_range.end);
            matrix.set_at(n - 1, n, ans);
            proof {
                rhs = rhs.update(n - 1, ans as int);
            }
            let sums: i32 = sums_for(n, max_sums);
            let ghost built = matrix@;
            proof {
                lemma_diagonal_system_kernel(built, d, rhs);
                lemma_zero_equals_nonzero_is_inconsistent(built, d, rhs);
            }
            shuffle_matrix(&mut matrix, rng, max_factor, sums);
            proof {
                lemma_same_kernel_same_verdict(built, matrix@);
                lemma_shuffle_with_more_sums(
                    built,
                    matrix@,
                    max_factor as int,
                    sums as int,
                    n * max_sums,
                );
                assert(matrix@.len() * max_sums == n * max_sums);
                assert(shuffled_system(matrix@, d, rhs, max_factor as int, max_sums as int));
            }
            node.add_test(Test::new(matrix, Answer::NONE));
            made += 1;
        }
    }

    /// Adds `num` systems with one solution: a diagonal system with no
    /// zero on the diagonal, shuffled. The number of rows is drawn from
    /// `size`, the diagonal from `divider` and the right-hand side from
    /// `answer_range`. The fixture holds the solution as the quotients of
    /// right-hand side and diagonal. The shuffle draws factors below
    /// `max_factor` and fewer row sums than `max_sums` for each row, at
    /// most the largest 32-bit integer.
    pub fn random_one_answer(
        &self,
        node: &mut Group,
        rng: &mut SmallRng,
        num: usize,
        size: Range<i32>,
        answer_range: Range<i32>,
        divider: Range<i32>,
        max_factor: i32,
        max_sums: i32,
    )
        requires
            family_parameters(size, max_factor, max_sums),
            holds_floatizable(answer_range.start as int, answer_range.end as int),
            holds_nonzero_floatizable(divider.start as int, divider.end as int),
        ensures
            grown_by(
                *old(node),
                *final(node),
                num as int,
                size,
                |t: Fixture|
                    unique_family_fixture(
                        t,
                        answer_range.start as int,
                        answer_range.end as int,
                        divider.start as int,
                        divider.end as int,
                        max_factor as int,
                        max_sums as int,
                    ),
            ),
    {
        let mut made: usize = 0;
        while made < num
            invariant
                made <= num,
                family_parameters(size, max_factor, max_sums),
                holds_floatizable(answer_range.start as int, answer_range.end as int),
                holds_nonzero_floatizable(divider.start as int, divider.end as int),
                grown_by(
                    *old(node),
                    *node,
                    made as int,
                    size,
                    |t: Fixture|
                    unique_family_fixture(
                        t,
                        answer_range.start as int,
                        answer_range.end as int,
                        divider.start as int,
                        divider.end as int,
                        max_factor as int,
                        max_sums as int,
                    ),
                ),
            decreases num - made,
        {
            let n: i32 = gen_range(rng, size.start, size.end);
            proof {
                lemma_family_sizes(n as int, size.end as int, max_factor as int, max_sums as int);
            }
            let mut matrix = Matrix::new_empty(n);
            let mut answer: Vec<Ratio> = Vec::new();
            let ghost mut d: Seq<int> = Seq::new(n as nat, |i: int| 0int);
            let ghost mut rhs: Seq<int> = Seq::new(n as nat, |i: int| 0int);
            let mut i: i32 = 0;
            while i < n
                invariant
                    0 <= i <= n,
                    matrix.wf(),
                    matrix.size() == n,
                    is_diagonal_system(matrix@, d, rhs),
                    d.len() == n,
                    rhs.len() == n,
                    none_zero(d, i as int),
                    all_within(d, i as int, divider.start as int, divider.end as int),
                    holds_nonzero_floatizable(divider.start as int, divider.end as int),
                decreases n - i,
            {
                let v: i32 = self.non_zero(rng, divider.start..divider.end);
                matrix.set_at(i, i, v);
                proof {
                    d = d.update(i as int, v as int);
                }
                i += 1;
            }
            i = 0;
            while i < n
                invariant
                    0 <= i <= n,
                    matrix.wf(),
                    matrix.size() == n,
                    is_diagonal_system(matrix@, d, rhs),
                    d.len() == n,
                    rhs.len() == n,
                    none_zero(d, n as int),
                    all_within(d, n as int, divider.start as int, divider.end as int),
                    all_within(rhs, i as int, answer_range.start as int, answer_range.end as int),
                    answer@.len() == i,
                    forall|j: int|
                        0 <= j < i ==> (#[trigger] answer@[j]).num == rhs[j] && answer@[j].den
                            == d[j],
                    holds_floatizable(answer_range.start as int, answer_range.end as int),
                decreases n - i,
            {
                let v: i32 = self.nice_floatizible(rng, answer_range.start..answer_range.end);
                matrix.set_at(i, n, v);
                proof {
                    rhs = rhs.update(i as int, v as int);
                }
                answer.push(Ratio { num: matrix.get_at(i, n), den: matrix.get_at(i, i) });
                i += 1;
            }
            let sums: i32 = sums_for(n, max_sums);
            let ghost built = matrix@;
            proof {
                lemma_diagonal_system_kernel(built, d, rhs);
            }
            shuffle_matrix(&mut matrix, rng, max_factor, sums);
            proof {
                lemma_diagonal_kernel_carries(built, matrix@, d, rhs);
                assert(denominators(answer@) =~= d);
                assert(numerators(answer@) =~= rhs);
                lemma_shuffle_with_more_sums(
                    built,
                    matrix@,
                    max_factor as int,
                    sums as int,
                    n * max_sums,
                );
                assert(matrix@.len() * max_sums == n * max_sums);
                assert(shuffled_system(matrix@, d, rhs, max_factor as int, max_sums as int));
            }
            node.add_test(Test::new(matrix, Answer::FOUND(answer)));
            made += 1;
        }
    }
}

impl TestsSupplier<Matrix, Answer<Ratio>> for SLAESupplier {
    /// The tree of fixtures: the one written out by hand, then six
    /// families drawn from `rng`.
    fn supply_tests(&self, rng: &mut SmallRng) -> (root: Group)
        ensures
            is_supplied_tree(root),
    {
        proof {
            lemma_small_is_floatizable(1);
            assert(holds_nonzero_floatizable(-100, 100));
            assert(holds_nonzero_floatizable(-10, 10));
            assert(holds_nonzero_floatizable(1, 30));
            assert(holds_nonzero_floatizable(1, 2));
            assert(holds_floatizable(-100, 100));
            assert(holds_floatizable(-10, 10));
        }
        let mut result: Group = TestsNode::new("root");
        let node = result.child("hand-made");
        self.hand_made(node);
        let node = result.child("random many answer long");
        self.random_many_answer(node, rng, 40, 5..6, -100..100, 1..30, 4, 10);
        let node = result.child("random one answer simple");
        self.random_one_answer(node, rng, 200, 1..6, -10..10, 1..2, 2, 2);
        let node = result.child("random one answer long");
        self.random_one_answer(node, rng, 40, 5..10, -100..100, 1..30, 10, 10);
        let node = result.child("random no answer short");
        self.random_no_answer(node, rng, 200, 2..6, -10..10, 1..2, 2, 2);
        let node = result.child("random no answer long");
        self.random_no_answer(node, rng, 40, 5..10, -100..100, 1..30, 10, 10);
        let node = result.child("random many answer short");
        self.random_many_answer(node, rng, 200, 2..6, -10..10, 1..2, 2, 2);
        result
    }
}

} // verus!
