//! The simplex tableau: an objective row and constraint rows of exact
//! fractions with a right-hand side, pivoted one step at a time.

use crate::fraction::{compare, Frac};
use crate::fraction::magnitude;
use crate::gcd::{euclid, gcd_of, lemma_gcd_self, lemma_reduced_coprime};
use crate::laws::{
    lemma_div_value, lemma_mul_value, lemma_order_irreflexive, lemma_order_transitive, lemma_sub_value,
};
use crate::matrix::Matrix;
use core::cmp::Ordering;
use vstd::prelude::*;
use vstd::std_specs::ops::{DivSpec, MulSpec, NegSpec, SubSpec};

verus! {

/// The fraction 0/1.
pub open spec fn zero() -> Frac {
    Frac { num: 0, den: 1, neg: false }
}

/// The fraction 1/1.
pub open spec fn one() -> Frac {
    Frac { num: 1, den: 1, neg: false }
}

/// A dense tableau. Row 0 is the objective row; rows `1..rows` are
/// constraints. Column 0 belongs to the objective, and the last
/// `rows - 1` columns are the slack columns, one per constraint.
pub struct Tableau {
    values: Matrix<Frac>,
    rhs: Vec<Frac>,
}

impl Tableau {
    /// The number of rows, objective row included.
    pub closed spec fn rows(&self) -> nat {
        self.values.num_rows()
    }

    /// The number of columns.
    pub closed spec fn cols(&self) -> nat {
        self.values.num_cols()
    }

    /// The coefficient in row `i`, column `j`.
    pub closed spec fn cell(&self, i: int, j: int) -> Frac {
        self.values@[i][j]->Some_0
    }

    /// The right-hand side of row `i`.
    pub closed spec fn rhs_at(&self, i: int) -> Frac {
        self.rhs@[i]
    }

    /// Every cell is present, there is one right-hand side per row, at least
    /// one row, and at least as many columns as rows.
    pub closed spec fn wf(&self) -> bool {
        &&& self.values.wf()
        &&& self.rhs@.len() == self.values.num_rows()
        &&& 1 <= self.values.num_rows() <= self.values.num_cols()
        &&& forall|i: int, j: int|
            0 <= i < self.values.num_rows() && 0 <= j < self.values.num_cols() ==> (
            #[trigger] self.values@[i][j]) is Some
    }

    /// The column of the unit coefficient that `add` places in row `i`:
    /// column 0 for the objective row, the row's slack column otherwise.
    pub open spec fn unit_col(&self, i: int) -> int {
        if i == 0 {
            0
        } else {
            self.cols() - self.rows() + i
        }
    }

    /// The cell `(r, j)` after `add(c, i)`: row `i` takes the unit
    /// coefficient in its unit column and the negated coefficients
    /// `-c[0], -c[1], ...` in columns `1, 2, ...`; the last element of
    /// `c` is the right-hand side, not a coefficient.
    pub open spec fn added_cell(&self, c: Seq<Frac>, i: int, r: int, j: int) -> Frac {
        if r != i {
            self.cell(r, j)
        } else if 1 <= j < c.len() {
            c[j - 1].neg_spec()
        } else if j == self.unit_col(i) {
            one()
        } else {
            self.cell(r, j)
        }
    }
}

/// What the next simplex step should do.
#[derive(PartialEq, Eq, Debug, Clone, Copy, Structural)]
pub enum PivotChoice {
    /// No objective coefficient is negative: the tableau is optimal.
    Optimal,
    /// The entering column has no eligible row: the objective is unbounded.
    Unbounded,
    /// Pivot on this cell.
    Pivot { column: usize, row: usize },
}

/// The coefficients of a row of integers, as fractions.
pub open spec fn fracs_of_ints(c: Seq<i32>) -> Seq<Frac> {
    c.map_values(|n: i32| Frac::from_int(n as int))
}

impl Tableau {
    /// A tableau for `nc` constraints over `nv` variables: `1 + nc` rows and
    /// `1 + nv + nc` columns of zeros, and a zero right-hand side.
    pub fn new(nc: usize, nv: usize) -> (r: Tableau)
        requires
            1 + nv + nc <= usize::MAX,
        ensures
            r.wf(),
            r.rows() == 1 + nc,
            r.cols() == 1 + nv + nc,
            forall|i: int, j: int| 0 <= i < r.rows() && 0 <= j < r.cols() ==> r.cell(i, j) == zero(),
            forall|i: int| 0 <= i < r.rows() ==> r.rhs_at(i) == zero(),
    {
        let values = Matrix::fill(1 + nc, 1 + nv + nc, Frac::from_i(0));
        let mut rhs: Vec<Frac> = Vec::new();
        let mut k: usize = 0;
        while k < 1 + nc
            invariant
                k <= 1 + nc,
                1 + nv + nc <= usize::MAX,
                rhs@.len() == k,
                forall|i: int| 0 <= i < k ==> rhs@[i] == zero(),
            decreases 1 + nc - k,
        {
            rhs.push(Frac::from_i(0));
            k += 1;
        }
        Tableau { values, rhs }
    }

    /// Writes row `i`: see `added_cell`. The last element of `c` becomes the
    /// row's right-hand side; the others, negated, its coefficients.
    pub fn add(&mut self, c: Vec<Frac>, i: usize)
        requires
            old(self).wf(),
            i < old(self).rows(),
            1 <= c@.len() <= old(self).cols(),
        ensures
            final(self).wf(),
            final(self).rows() == old(self).rows(),
            final(self).cols() == old(self).cols(),
            forall|r: int, j: int|
                0 <= r < old(self).rows() && 0 <= j < old(self).cols() ==> final(self).cell(r, j)
                    == old(self).added_cell(c@, i as int, r, j),
            forall|r: int|
                0 <= r < old(self).rows() ==> final(self).rhs_at(r) == if r == i {
                    c@[c@.len() - 1]
                } else {
                    old(self).rhs_at(r)
                },
    {
        let ghost start = *self;
        let col: usize = if i == 0 {
            0
        } else {
            self.values.get_cols() - self.values.get_rows() + i
        };
        let u = Frac::from_i(1);
        self.values.set(i, col, Some(u));
        proof {
            Tableau::lemma_set_cell(start, *self, i as int, col as int, u);
        }
        let n: usize = c.len() - 1;
        let mut j: usize = 0;
        while j < n
            invariant
                self.wf(),
                j <= n,
                n + 1 == c@.len(),
                c@.len() <= start.cols(),
                i < start.rows(),
                col == start.unit_col(i as int),
                self.rows() == start.rows(),
                self.cols() == start.cols(),
                self.rhs == start.rhs,
                forall|r: int, l: int|
                    0 <= r < start.rows() && 0 <= l < start.cols() ==> #[trigger] self.cell(r, l)
                        == if r == i && 1 <= l <= j {
                        c@[l - 1].neg_spec()
                    } else if r == i && l == col {
                        one()
                    } else {
                        start.cell(r, l)
                    },
            decreases n - j,
        {
            let v = core::ops::Neg::neg(c[j]);
            let ghost before = *self;
            self.values.set(i, j + 1, Some(v));
            proof {
                Tableau::lemma_set_cell(before, *self, i as int, j + 1, v);
            }
            j += 1;
        }
        let ghost filled = *self;
        self.rhs.set(i, c[n]);
        assert forall|r: int, l: int| 0 <= r < start.rows() && 0 <= l < start.cols() implies
            #[trigger] self.cell(r, l) == start.added_cell(c@, i as int, r, l) by {
            assert(self.cell(r, l) == filled.cell(r, l));
        }
    }

    /// `add` with integer coefficients.
    pub fn add_i(&mut self, c: Vec<i32>, i: usize)
        requires
            old(self).wf(),
            i < old(self).rows(),
            1 <= c@.len() <= old(self).cols(),
        ensures
            final(self).wf(),
            final(self).rows() == old(self).rows(),
            final(self).cols() == old(self).cols(),
            forall|r: int, j: int|
                0 <= r < old(self).rows() && 0 <= j < old(self).cols() ==> final(self).cell(r, j)
                    == old(self).added_cell(fracs_of_ints(c@), i as int, r, j),
            forall|r: int|
                0 <= r < old(self).rows() ==> final(self).rhs_at(r) == if r == i {
                    Frac::from_int(c@[c@.len() - 1] as int)
                } else {
                    old(self).rhs_at(r)
                },
    {
        let mut fracs: Vec<Frac> = Vec::new();
        let mut k: usize = 0;
        while k < c.len()
            invariant
                k <= c@.len(),
                fracs@ == fracs_of_ints(c@).subrange(0, k as int),
            decreases c@.len() - k,
        {
            fracs.push(Frac::from_i(c[k]));
            k += 1;
            assert(fracs@ =~= fracs_of_ints(c@).subrange(0, k as int));
        }
        assert(fracs@ =~= fracs_of_ints(c@));
        self.add(fracs, i)
    }

    /// The number of rows, objective row included.
    pub fn get_rows(&self) -> (r: usize)
        requires
            self.wf(),
        ensures
            r == self.rows(),
    {
        self.values.get_rows()
    }

    /// The number of columns.
    pub fn get_cols(&self) -> (r: usize)
        requires
            self.wf(),
        ensures
            r == self.cols(),
    {
        self.values.get_cols()
    }

    /// The coefficient in row `i`, column `j`.
    pub fn get(&self, i: usize, j: usize) -> (r: Frac)
        requires
            self.wf(),
            i < self.rows(),
            j < self.cols(),
        ensures
            r == self.cell(i as int, j as int),
    {
        self.values.get(i, j)
    }

    /// The right-hand side of row `i`.
    pub fn get_rhs(&self, i: usize) -> (r: Frac)
        requires
            self.wf(),
            i < self.rows(),
        ensures
            r == self.rhs_at(i as int),
    {
        self.rhs[i]
    }

    /// The right-hand side of the objective row: the objective's current value.
    pub fn get_cost(&self) -> (r: Frac)
        requires
            self.wf(),
        ensures
            r == self.rhs_at(0),
    {
        self.rhs[0]
    }
}

/// The ratio that turns the pivot row into itself divided by its pivot `p`:
/// `p/p - 1/p`, so that `x - x * (p/p - 1/p)` is `x / p`.
pub open spec fn self_ratio(p: Frac) -> Frac {
    p.div_spec(p).sub_spec(one().div_spec(p))
}

impl Tableau {
    /// The objective-row scan over the first `n` columns: the index and value
    /// of the first coefficient strictly below every earlier candidate,
    /// starting from `(0, 0/1)`, so only negative coefficients are taken.
    pub open spec fn column_scan(&self, n: nat) -> (int, Frac)
        decreases n,
    {
        if n == 0 {
            (0, zero())
        } else {
            let prev = self.column_scan((n - 1) as nat);
            if compare(self.cell(0, n - 1), prev.1) == Ordering::Less {
                (n - 1, self.cell(0, n - 1))
            } else {
                prev
            }
        }
    }

    /// The entering column: the first most negative objective coefficient,
    /// or 0 when none is negative.
    pub open spec fn column_choice(&self) -> int {
        self.column_scan(self.cols()).0
    }

    /// Every objective coefficient has a positive denominator.
    pub open spec fn objective_dens_positive(&self) -> bool {
        forall|j: int| 0 <= j < self.cols() ==> (#[trigger] self.cell(0, j)).den > 0
    }

    /// No objective coefficient is negative.
    pub open spec fn none_negative(&self) -> bool {
        forall|j: int| 0 <= j < self.cols() ==> compare(#[trigger] self.cell(0, j), zero()) != Ordering::Less
    }

    /// Column `r` holds a negative objective coefficient that no other
    /// coefficient is below, and every earlier one is above it.
    pub open spec fn is_first_most_negative(&self, r: int) -> bool {
        &&& 0 <= r < self.cols()
        &&& compare(self.cell(0, r), zero()) == Ordering::Less
        &&& forall|j: int|
            0 <= j < self.cols() ==> compare(#[trigger] self.cell(0, j), self.cell(0, r))
                != Ordering::Less
        &&& forall|j: int|
            0 <= j < r ==> compare(self.cell(0, r), #[trigger] self.cell(0, j)) == Ordering::Less
    }

    /// What the scan of the first `n` objective coefficients has found.
    proof fn lemma_column_scan(&self, n: nat)
        requires
            n <= self.cols(),
            self.objective_dens_positive(),
        ensures
            ({
                let (i, a) = self.column_scan(n);
                ||| (i == 0 && a == zero() && forall|j: int|
                    0 <= j < n ==> compare(#[trigger] self.cell(0, j), zero()) != Ordering::Less)
                ||| (0 <= i < n && a == self.cell(0, i) && compare(a, zero()) == Ordering::Less
                    && (forall|j: int|
                    0 <= j < n ==> compare(#[trigger] self.cell(0, j), a) != Ordering::Less) && (
                forall|j: int| 0 <= j < i ==> compare(a, #[trigger] self.cell(0, j)) == Ordering::Less))
            }),
        decreases n,
    {
        if n > 0 {
            self.lemma_column_scan((n - 1) as nat);
            let (pi, pa) = self.column_scan((n - 1) as nat);
            let b = self.cell(0, n - 1);
            lemma_order_irreflexive(b);
            if compare(b, pa) == Ordering::Less {
                lemma_order_transitive(b, pa, zero());
                assert forall|j: int| 0 <= j < n implies compare(#[trigger] self.cell(0, j), b)
                    != Ordering::Less by {
                    if j < n - 1 && compare(self.cell(0, j), b) == Ordering::Less {
                        lemma_order_transitive(self.cell(0, j), b, pa);
                    }
                }
                assert forall|j: int| 0 <= j < n - 1 implies compare(b, #[trigger] self.cell(0, j))
                    == Ordering::Less by {
                    lemma_order_transitive(b, pa, self.cell(0, j));
                }
            }
        }
    }

    /// Row `j` takes part in the ratio test for column `c`: its coefficient
    /// there is positive and its right-hand side is not negative.
    pub open spec fn row_eligible(&self, c: int, j: int) -> bool {
        &&& compare(self.cell(j, c), zero()) == Ordering::Greater
        &&& compare(self.rhs_at(j), zero()) != Ordering::Less
    }

    /// The ratio `rhs / coefficient` of row `j` in column `c`.
    pub open spec fn row_ratio_test(&self, c: int, j: int) -> Frac {
        self.rhs_at(j).div_spec(self.cell(j, c))
    }

    /// Every constraint row has positive denominators in column `c` and in
    /// its right-hand side.
    pub open spec fn constraint_dens_positive(&self, c: int) -> bool {
        forall|j: int|
            1 <= j < self.rows() ==> (#[trigger] self.cell(j, c)).den > 0 && self.rhs_at(j).den > 0
    }

    /// No constraint row takes part in the ratio test for column `c`.
    pub open spec fn no_eligible_row(&self, c: int) -> bool {
        forall|j: int| 1 <= j < self.rows() ==> !#[trigger] self.row_eligible(c, j)
    }

    /// Row `r` is eligible for column `c`, no eligible row has a smaller
    /// ratio, and every earlier eligible row has a larger one.
    pub open spec fn is_first_min_ratio(&self, c: int, r: int) -> bool {
        &&& 1 <= r < self.rows()
        &&& self.row_eligible(c, r)
        &&& forall|j: int|
            1 <= j < self.rows() && #[trigger] self.row_eligible(c, j) ==> compare(
                self.row_ratio_test(c, j),
                self.row_ratio_test(c, r),
            ) != Ordering::Less
        &&& forall|j: int|
            1 <= j < r && #[trigger] self.row_eligible(c, j) ==> compare(
                self.row_ratio_test(c, r),
                self.row_ratio_test(c, j),
            ) == Ordering::Less
    }

    /// The ratio of an eligible row has a positive denominator, unlike `1/0`.
    proof fn lemma_ratio_den(&self, c: int, j: int)
        requires
            self.constraint_dens_positive(c),
            self.ratios_fit(c),
            1 <= j < self.rows(),
            self.row_eligible(c, j),
        ensures
            self.row_ratio_test(c, j).den > 0,
            Frac::of(1, 0).den == 0,
    {
        let a = self.rhs_at(j);
        let b = self.cell(j, c);
        assert(b.den > 0);
        assert(b.num > 0);
        let n = (a.num * b.den) as nat;
        let d = (a.den * b.num) as nat;
        assert(d > 0) by (nonlinear_arith)
            requires
                a.den > 0,
                b.num > 0,
                d == a.den * b.num,
        ;
        lemma_reduced_coprime(n, d);
        let g = gcd_of(n, d);
        assert(d / g > 0) by (nonlinear_arith)
            requires
                d == (d / g) * g,
                d > 0,
        ;
        assert(d / g <= d) by (nonlinear_arith)
            requires
                d == (d / g) * g,
                d > 0,
                d / g > 0,
        ;
        lemma_reduced_coprime(1, 0);
    }

    /// What the ratio test over rows `1..n` has found.
    proof fn lemma_row_scan(&self, c: int, n: nat)
        requires
            1 <= n <= self.rows(),
            self.constraint_dens_positive(c),
            self.ratios_fit(c),
        ensures
            ({
                let (i, z) = self.row_scan(c, n);
                ||| (i == 0 && z == Frac::of(1, 0) && forall|j: int|
                    1 <= j < n ==> !#[trigger] self.row_eligible(c, j))
                ||| (1 <= i < n && self.row_eligible(c, i) && z == self.row_ratio_test(c, i) && (
                forall|j: int|
                    1 <= j < n && #[trigger] self.row_eligible(c, j) ==> compare(
                        self.row_ratio_test(c, j),
                        z,
                    ) != Ordering::Less) && (forall|j: int|
                    1 <= j < i && #[trigger] self.row_eligible(c, j) ==> compare(
                        z,
                        self.row_ratio_test(c, j),
                    ) == Ordering::Less))
            }),
        decreases n,
    {
        if n > 1 {
            self.lemma_row_scan(c, (n - 1) as nat);
            let (pi, pz) = self.row_scan(c, (n - 1) as nat);
            let j = n - 1;
            let d = self.row_ratio_test(c, j);
            if pi != 0 {
                self.lemma_ratio_den(c, pi);
            }
            if self.row_eligible(c, j) {
                self.lemma_ratio_den(c, j);
                lemma_order_irreflexive(d);
                if pz == Frac::of(1, 0) {
                } else if compare(d, pz) == Ordering::Less {
                    assert forall|k: int|
                        1 <= k < n && #[trigger] self.row_eligible(c, k) implies compare(
                        self.row_ratio_test(c, k),
                        d,
                    ) != Ordering::Less by {
                        if k < j {
                            self.lemma_ratio_den(c, k);
                            if compare(self.row_ratio_test(c, k), d) == Ordering::Less {
                                lemma_order_transitive(self.row_ratio_test(c, k), d, pz);
                            }
                        }
                    }
                    assert forall|k: int|
                        1 <= k < j && #[trigger] self.row_eligible(c, k) implies compare(
                        d,
                        self.row_ratio_test(c, k),
                    ) == Ordering::Less by {
                        self.lemma_ratio_den(c, k);
                        lemma_order_transitive(d, pz, self.row_ratio_test(c, k));
                    }
                }
            }
        }
    }

    /// The ratio test over rows `1..n`: the index and ratio of the first
    /// eligible row whose ratio is strictly below every earlier one,
    /// starting from `(0, 1/0)` where `1/0` stands for no ratio yet.
    pub open spec fn row_scan(&self, c: int, n: nat) -> (int, Frac)
        decreases n,
    {
        if n <= 1 {
            (0, Frac::of(1, 0))
        } else {
            let prev = self.row_scan(c, (n - 1) as nat);
            let j = n - 1;
            let d = self.row_ratio_test(c, j);
            if self.row_eligible(c, j) && (prev.1 == Frac::of(1, 0) || compare(d, prev.1)
                == Ordering::Less) {
                (j, d)
            } else {
                prev
            }
        }
    }

    /// The leaving row for column `c`: the first eligible row with the
    /// smallest ratio, or 0 when no row is eligible.
    pub open spec fn row_choice(&self, c: int) -> int {
        self.row_scan(c, self.rows()).0
    }

    /// Every ratio of the ratio test for column `c` can be computed.
    pub open spec fn ratios_fit(&self, c: int) -> bool {
        forall|j: int|
            1 <= j < self.rows() && #[trigger] self.row_eligible(c, j) ==> self.rhs_at(j).div_req(
                self.cell(j, c),
            )
    }

    /// Cell `(r, j)` of the pivot row once divided by its pivot `(r, c)`.
    pub open spec fn pivot_row_cell(&self, r: int, c: int, j: int) -> Frac {
        self.cell(r, j).sub_spec(self.cell(r, j).mul_spec(self_ratio(self.cell(r, c))))
    }

    /// The right-hand side of the pivot row once divided by its pivot.
    pub open spec fn pivot_row_rhs(&self, r: int, c: int) -> Frac {
        self.rhs_at(r).sub_spec(self.rhs_at(r).mul_spec(self_ratio(self.cell(r, c))))
    }

    /// The pivot row as row `i` sees it: rows up to the pivot row use it as
    /// it was, later rows use it divided by its pivot.
    pub open spec fn source_cell(&self, r: int, c: int, i: int, j: int) -> Frac {
        if i <= r {
            self.cell(r, j)
        } else {
            self.pivot_row_cell(r, c, j)
        }
    }

    /// The pivot row's right-hand side as row `i` sees it.
    pub open spec fn source_rhs(&self, r: int, c: int, i: int) -> Frac {
        if i <= r {
            self.rhs_at(r)
        } else {
            self.pivot_row_rhs(r, c)
        }
    }

    /// The multiple of the pivot row subtracted from row `i`.
    pub open spec fn elimination_ratio(&self, r: int, c: int, i: int) -> Frac {
        if i == r {
            self_ratio(self.cell(r, c))
        } else {
            self.cell(i, c).div_spec(self.source_cell(r, c, i, c))
        }
    }

    /// Cell `(i, j)` after pivoting on `(r, c)`.
    pub open spec fn pivoted_cell(&self, r: int, c: int, i: int, j: int) -> Frac {
        self.cell(i, j).sub_spec(
            self.source_cell(r, c, i, j).mul_spec(self.elimination_ratio(r, c, i)),
        )
    }

    /// The right-hand side of row `i` after pivoting on `(r, c)`.
    pub open spec fn pivoted_rhs(&self, r: int, c: int, i: int) -> Frac {
        self.rhs_at(i).sub_spec(self.source_rhs(r, c, i).mul_spec(self.elimination_ratio(r, c, i)))
    }

    /// The update of cell `(i, j)` can be computed.
    pub open spec fn cell_update_fits(&self, r: int, c: int, i: int, j: int) -> bool {
        let m = self.source_cell(r, c, i, j);
        let q = self.elimination_ratio(r, c, i);
        m.mul_req(q) && self.cell(i, j).sub_req(m.mul_spec(q))
    }

    /// The update of the right-hand side of row `i` can be computed.
    pub open spec fn rhs_update_fits(&self, r: int, c: int, i: int) -> bool {
        let m = self.source_rhs(r, c, i);
        let q = self.elimination_ratio(r, c, i);
        m.mul_req(q) && self.rhs_at(i).sub_req(m.mul_spec(q))
    }

    /// Every operation of the pivot on `(r, c)` can be computed.
    pub open spec fn pivot_fits(&self, r: int, c: int) -> bool {
        let p = self.cell(r, c);
        &&& p.div_req(p)
        &&& one().div_req(p)
        &&& p.div_spec(p).sub_req(one().div_spec(p))
        &&& forall|i: int|
            0 <= i < self.rows() && i != r ==> #[trigger] self.cell(i, c).div_req(
                self.source_cell(r, c, i, c),
            )
        &&& forall|i: int, j: int|
            0 <= i < self.rows() && 0 <= j < self.cols() ==> #[trigger] self.cell_update_fits(
                r,
                c,
                i,
                j,
            )
        &&& forall|i: int| 0 <= i < self.rows() ==> #[trigger] self.rhs_update_fits(r, c, i)
    }

    /// Setting one cell changes that cell and no other.
    proof fn lemma_set_cell(before: Tableau, after: Tableau, i: int, j: int, v: Frac)
        requires
            before.wf(),
            0 <= i < before.rows(),
            0 <= j < before.cols(),
            after.values.wf(),
            after.values.num_rows() == before.rows(),
            after.values.num_cols() == before.cols(),
            after.rhs == before.rhs,
            after.values@ == before.values@.update(i, before.values@[i].update(j, Some(v))),
        ensures
            after.wf(),
            after.rows() == before.rows(),
            after.cols() == before.cols(),
            forall|r: int, l: int|
                0 <= r < before.rows() && 0 <= l < before.cols() ==> #[trigger] after.cell(r, l)
                    == if r == i && l == j {
                    v
                } else {
                    before.cell(r, l)
                },
            forall|k: int| 0 <= k < before.rows() ==> #[trigger] after.rhs_at(k) == before.rhs_at(k),
    {
        assert forall|r: int, l: int|
            0 <= r < before.rows() && 0 <= l < before.cols() implies (
            #[trigger] after.values@[r][l]) is Some by {
            assert(before.values@[r][l] is Some);
        }
    }

    /// The entering column: the first most negative coefficient of the
    /// objective row, or 0 when none is negative.
    pub fn column(&self) -> (r: usize)
        requires
            self.wf(),
        ensures
            r == self.column_choice(),
            r < self.cols(),
            self.objective_dens_positive() ==> (r == 0 && self.none_negative())
                || self.is_first_most_negative(r as int),
    {
        proof {
            if self.objective_dens_positive() {
                self.lemma_column_scan(self.cols());
            }
        }
        let mut i: usize = 0;
        let mut a: Frac = Frac::from_i(0);
        let cols = self.values.get_cols();
        let mut j: usize = 0;
        while j < cols
            invariant
                self.wf(),
                cols == self.cols(),
                j <= cols,
                i < cols,
                (i as int, a) == self.column_scan(j as nat),
            decreases cols - j,
        {
            let b: Frac = self.values.get(0, j);
            if b < a {
                i = j;
                a = b;
            }
            j += 1;
        }
        i
    }

    /// The leaving row for column `c`: among constraint rows with a positive
    /// coefficient in `c` and a non-negative right-hand side, the first with
    /// the smallest ratio `rhs / coefficient`; 0 when there is none.
    pub fn row(&self, c: usize) -> (r: usize)
        requires
            self.wf(),
            c < self.cols(),
            self.ratios_fit(c as int),
        ensures
            r == self.row_choice(c as int),
            r < self.rows(),
            self.constraint_dens_positive(c as int) ==> (r == 0 && self.no_eligible_row(c as int))
                || self.is_first_min_ratio(c as int, r as int),
    {
        proof {
            if self.constraint_dens_positive(c as int) {
                self.lemma_row_scan(c as int, self.rows());
            }
        }
        let mut i: usize = 0;
        let mut z: Frac = Frac::new(1, 0);
        let rows = self.values.get_rows();
        let mut j: usize = 1;
        while j < rows
            invariant
                self.wf(),
                rows == self.rows(),
                c < self.cols(),
                self.ratios_fit(c as int),
                1 <= j <= rows,
                i < rows,
                (i as int, z) == self.row_scan(c as int, j as nat),
            decreases rows - j,
        {
            let a: Frac = self.rhs[j];
            let b: Frac = self.values.get(j, c);
            if b > Frac::from_i(0) && a >= Frac::from_i(0) {
                assert(self.row_eligible(c as int, j as int));
                let d: Frac = a / b;
                if z == Frac::new(1, 0) || d < z {
                    z = d;
                    i = j;
                }
            }
            j += 1;
        }
        i
    }
}

impl Tableau {
    /// Gauss-Jordan elimination on the pivot cell `(r, c)`: every row `i`
    /// loses `elimination_ratio(i)` times the pivot row, which divides the
    /// pivot row by its pivot and clears column `c` elsewhere.
    pub fn pivot(&mut self, r: usize, c: usize)
        requires
            old(self).wf(),
            r < old(self).rows(),
            c < old(self).cols(),
            old(self).pivot_fits(r as int, c as int),
        ensures
            final(self).wf(),
            final(self).rows() == old(self).rows(),
            final(self).cols() == old(self).cols(),
            forall|i: int, j: int|
                0 <= i < old(self).rows() && 0 <= j < old(self).cols() ==> final(self).cell(i, j)
                    == old(self).pivoted_cell(r as int, c as int, i, j),
            forall|i: int|
                0 <= i < old(self).rows() ==> final(self).rhs_at(i) == old(self).pivoted_rhs(
                    r as int,
                    c as int,
                    i,
                ),
    {
        let ghost start = *self;
        let rows = self.values.get_rows();
        let cols = self.values.get_cols();
        let mut i: usize = 0;
        while i < rows
            invariant
                start.wf(),
                start.pivot_fits(r as int, c as int),
                self.wf(),
                rows == start.rows(),
                cols == start.cols(),
                self.rows() == rows,
                self.cols() == cols,
                r < rows,
                c < cols,
                i <= rows,
                forall|k: int, l: int|
                    0 <= k < rows && 0 <= l < cols ==> #[trigger] self.cell(k, l) == if k < i {
                        start.pivoted_cell(r as int, c as int, k, l)
                    } else {
                        start.cell(k, l)
                    },
                forall|k: int|
                    0 <= k < rows ==> #[trigger] self.rhs_at(k) == if k < i {
                        start.pivoted_rhs(r as int, c as int, k)
                    } else {
                        start.rhs_at(k)
                    },
            decreases rows - i,
        {
            let p: Frac = self.values.get(r, c);
            let x: Frac = self.values.get(i, c);
            assert(p == self.cell(r as int, c as int));
            assert(x == self.cell(i as int, c as int));
            assert(p == start.source_cell(r as int, c as int, i as int, c as int));
            let mut ratio: Frac = x / p;
            if i == r {
                let u: Frac = Frac::from_i(1);
                let w: Frac = u / p;
                ratio = ratio - w;
            }
            assert(ratio == start.elimination_ratio(r as int, c as int, i as int));
            let mut j: usize = 0;
            while j < cols
                invariant
                    start.wf(),
                    start.pivot_fits(r as int, c as int),
                    self.wf(),
                    rows == start.rows(),
                    cols == start.cols(),
                    self.rows() == rows,
                    self.cols() == cols,
                    r < rows,
                    c < cols,
                    i < rows,
                    j <= cols,
                    ratio == start.elimination_ratio(r as int, c as int, i as int),
                    forall|k: int, l: int|
                        0 <= k < rows && 0 <= l < cols ==> #[trigger] self.cell(k, l) == if k < i
                            || (k == i && l < j) {
                            start.pivoted_cell(r as int, c as int, k, l)
                        } else {
                            start.cell(k, l)
                        },
                    forall|k: int|
                        0 <= k < rows ==> #[trigger] self.rhs_at(k) == if k < i {
                            start.pivoted_rhs(r as int, c as int, k)
                        } else {
                            start.rhs_at(k)
                        },
                decreases cols - j,
            {
                let a: Frac = self.values.get(i, j);
                let b: Frac = self.values.get(r, j);
                assert(a == self.cell(i as int, j as int));
                assert(b == self.cell(r as int, j as int));
                assert(b == start.source_cell(r as int, c as int, i as int, j as int));
                assert(start.cell_update_fits(r as int, c as int, i as int, j as int));
                let m: Frac = b * ratio;
                let v: Frac = a - m;
                let ghost before = *self;
                self.values.set(i, j, Some(v));
                proof {
                    Tableau::lemma_set_cell(before, *self, i as int, j as int, v);
                }
                j += 1;
            }
            let s: Frac = self.rhs[r];
            let t: Frac = self.rhs[i];
            assert(s == self.rhs_at(r as int));
            assert(t == self.rhs_at(i as int));
            assert(s == start.source_rhs(r as int, c as int, i as int));
            assert(start.rhs_update_fits(r as int, c as int, i as int));
            let m: Frac = s * ratio;
            let v: Frac = t - m;
            let ghost before = *self;
            self.rhs.set(i, v);
            assert forall|k: int, l: int| 0 <= k < rows && 0 <= l < cols implies #[trigger] self.cell(
                k,
                l,
            ) == before.cell(k, l) by {}
            assert forall|k: int| 0 <= k < rows implies #[trigger] self.rhs_at(k) == if k
                == i {
                v
            } else {
                before.rhs_at(k)
            } by {}
            i += 1;
        }
    }

    /// Whether every ratio of the ratio test for column `c` can be computed.
    pub fn ratios_computable(&self, c: usize) -> (ok: bool)
        requires
            self.wf(),
            c < self.cols(),
        ensures
            ok == self.ratios_fit(c as int),
    {
        let rows = self.values.get_rows();
        let nil: Frac = Frac::from_i(0);
        let mut j: usize = 1;
        while j < rows
            invariant
                self.wf(),
                rows == self.rows(),
                c < self.cols(),
                1 <= j <= rows,
                nil == zero(),
                forall|k: int|
                    1 <= k < j && #[trigger] self.row_eligible(c as int, k) ==> self.rhs_at(
                        k,
                    ).div_req(self.cell(k, c as int)),
            decreases rows - j,
        {
            let a: Frac = self.rhs[j];
            let b: Frac = self.values.get(j, c);
            assert(a == self.rhs_at(j as int) && b == self.cell(j as int, c as int));
            if b > nil && a >= nil && !a.div_fits(b) {
                assert(self.row_eligible(c as int, j as int));
                return false;
            }
            j += 1;
        }
        true
    }

    /// Whether every operation of the pivot on `(r, c)` can be computed.
    pub fn pivot_computable(&self, r: usize, c: usize) -> (ok: bool)
        requires
            self.wf(),
            r < self.rows(),
            c < self.cols(),
        ensures
            ok == self.pivot_fits(r as int, c as int),
    {
        let rows = self.values.get_rows();
        let cols = self.values.get_cols();
        let p: Frac = self.values.get(r, c);
        let one: Frac = Frac::from_i(1);
        if !p.div_fits(p) || !one.div_fits(p) {
            return false;
        }
        let pp: Frac = p / p;
        let op: Frac = one / p;
        if !pp.sub_fits(op) {
            return false;
        }
        let q: Frac = pp - op;
        assert(q == self.elimination_ratio(r as int, c as int, r as int));
        let mut prow: Vec<Frac> = Vec::new();
        let mut j: usize = 0;
        while j < cols
            invariant
                self.wf(),
                rows == self.rows(),
                cols == self.cols(),
                r < rows,
                c < cols,
                j <= cols,
                q == self.elimination_ratio(r as int, c as int, r as int),
                prow@.len() == j,
                forall|l: int| 0 <= l < j ==> prow@[l] == #[trigger] self.pivot_row_cell(r as int, c as int, l),
                forall|l: int| 0 <= l < j ==> #[trigger] self.cell_update_fits(r as int, c as int, r as int, l),
            decreases cols - j,
        {
            let x: Frac = self.values.get(r, j);
            assert(x == self.cell(r as int, j as int));
            if !x.mul_fits(q) {
                assert(!self.cell_update_fits(r as int, c as int, r as int, j as int));
                return false;
            }
            let m: Frac = x * q;
            if !x.sub_fits(m) {
                assert(!self.cell_update_fits(r as int, c as int, r as int, j as int));
                return false;
            }
            prow.push(x - m);
            assert(self.cell_update_fits(r as int, c as int, r as int, j as int));
            j += 1;
        }
        let s0: Frac = self.rhs[r];
        assert(s0 == self.rhs_at(r as int));
        if !s0.mul_fits(q) {
            assert(!self.rhs_update_fits(r as int, c as int, r as int));
            return false;
        }
        let m0: Frac = s0 * q;
        if !s0.sub_fits(m0) {
            assert(!self.rhs_update_fits(r as int, c as int, r as int));
            return false;
        }
        let srhs: Frac = s0 - m0;
        assert(srhs == self.pivot_row_rhs(r as int, c as int));
        let mut i: usize = 0;
        while i < rows
            invariant
                self.wf(),
                rows == self.rows(),
                cols == self.cols(),
                r < rows,
                c < cols,
                i <= rows,
                p == self.cell(r as int, c as int),
                srhs == self.pivot_row_rhs(r as int, c as int),
                prow@.len() == cols,
                forall|l: int| 0 <= l < cols ==> prow@[l] == #[trigger] self.pivot_row_cell(r as int, c as int, l),
                forall|l: int| 0 <= l < cols ==> #[trigger] self.cell_update_fits(r as int, c as int, r as int, l),
                self.rhs_update_fits(r as int, c as int, r as int),
                forall|k: int, l: int|
                    0 <= k < i && 0 <= l < cols ==> #[trigger] self.cell_update_fits(r as int, c as int, k, l),
                forall|k: int| 0 <= k < i ==> #[trigger] self.rhs_update_fits(r as int, c as int, k),
                forall|k: int|
                    0 <= k < i && k != r ==> #[trigger] self.cell(k, c as int).div_req(
                        self.source_cell(r as int, c as int, k, c as int),
                    ),
            decreases rows - i,
        {
            if i != r {
                let x: Frac = self.values.get(i, c);
                assert(x == self.cell(i as int, c as int));
                let pc: Frac = if i < r {
                    p
                } else {
                    prow[c]
                };
                assert(pc == self.source_cell(r as int, c as int, i as int, c as int));
                if !x.div_fits(pc) {
                    return false;
                }
                let ratio: Frac = x / pc;
                assert(ratio == self.elimination_ratio(r as int, c as int, i as int));
                let mut j: usize = 0;
                while j < cols
                    invariant
                        self.wf(),
                        rows == self.rows(),
                        cols == self.cols(),
                        r < rows,
                        c < cols,
                        i < rows,
                        i != r,
                        j <= cols,
                        ratio == self.elimination_ratio(r as int, c as int, i as int),
                        prow@.len() == cols,
                        forall|l: int|
                            0 <= l < cols ==> prow@[l] == #[trigger] self.pivot_row_cell(r as int, c as int, l),
                        forall|l: int|
                            0 <= l < j ==> #[trigger] self.cell_update_fits(r as int, c as int, i as int, l),
                    decreases cols - j,
                {
                    let src: Frac = if i < r {
                        self.values.get(r, j)
                    } else {
                        prow[j]
                    };
                    assert(src == self.source_cell(r as int, c as int, i as int, j as int));
                    let y: Frac = self.values.get(i, j);
                    assert(y == self.cell(i as int, j as int));
                    if !src.mul_fits(ratio) {
                        assert(!self.cell_update_fits(r as int, c as int, i as int, j as int));
                        return false;
                    }
                    let m: Frac = src * ratio;
                    if !y.sub_fits(m) {
                        assert(!self.cell_update_fits(r as int, c as int, i as int, j as int));
                        return false;
                    }
                    assert(self.cell_update_fits(r as int, c as int, i as int, j as int));
                    j += 1;
                }
                let src: Frac = if i < r {
                    self.rhs[r]
                } else {
                    srhs
                };
                assert(src == self.source_rhs(r as int, c as int, i as int));
                let t: Frac = self.rhs[i];
                assert(t == self.rhs_at(i as int));
                if !src.mul_fits(ratio) {
                    assert(!self.rhs_update_fits(r as int, c as int, i as int));
                    return false;
                }
                let m: Frac = src * ratio;
                if !t.sub_fits(m) {
                    assert(!self.rhs_update_fits(r as int, c as int, i as int));
                    return false;
                }
                assert(self.rhs_update_fits(r as int, c as int, i as int));
            }
            i += 1;
        }
        true
    }

    /// Chooses the next step: `Optimal` when the entering column's
    /// coefficient is not negative, `Unbounded` when no row is eligible for
    /// it, and otherwise the pivot cell that `iteration` would use.
    pub fn next_pivot(&self) -> (choice: PivotChoice)
        requires
            self.wf(),
            self.ratios_fit(self.column_choice()),
        ensures
            choice == (if compare(self.cell(0, self.column_choice()), zero()) != Ordering::Less {
                PivotChoice::Optimal
            } else if self.row_choice(self.column_choice()) == 0 {
                PivotChoice::Unbounded
            } else {
                PivotChoice::Pivot {
                    column: self.column_choice() as usize,
                    row: self.row_choice(self.column_choice()) as usize,
                }
            }),
            self.objective_dens_positive() ==> (choice == PivotChoice::Optimal
                <==> self.none_negative()),
            self.objective_dens_positive() && self.constraint_dens_positive(self.column_choice())
                ==> (choice == PivotChoice::Unbounded ==> self.no_eligible_row(self.column_choice())),
    {
        let c = self.column();
        let entering: Frac = self.values.get(0, c);
        assert(entering == self.cell(0, c as int));
        if entering >= Frac::from_i(0) {
            return PivotChoice::Optimal;
        }
        let r = self.row(c);
        if r == 0 {
            PivotChoice::Unbounded
        } else {
            PivotChoice::Pivot { column: c, row: r }
        }
    }

    /// One simplex step: chooses the entering column and the leaving row,
    /// then pivots on them.
    pub fn iteration(&mut self)
        requires
            old(self).wf(),
            old(self).ratios_fit(old(self).column_choice()),
            old(self).pivot_fits(
                old(self).row_choice(old(self).column_choice()),
                old(self).column_choice(),
            ),
        ensures
            final(self).wf(),
            final(self).rows() == old(self).rows(),
            final(self).cols() == old(self).cols(),
            forall|i: int, j: int|
                0 <= i < old(self).rows() && 0 <= j < old(self).cols() ==> final(self).cell(i, j)
                    == old(self).pivoted_cell(
                    old(self).row_choice(old(self).column_choice()),
                    old(self).column_choice(),
                    i,
                    j,
                ),
            forall|i: int|
                0 <= i < old(self).rows() ==> final(self).rhs_at(i) == old(self).pivoted_rhs(
                    old(self).row_choice(old(self).column_choice()),
                    old(self).column_choice(),
                    i,
                ),
    {
        let c = self.column();
        let r = self.row(c);
        self.pivot(r, c);
    }
}

/// A positive integer over itself is exactly `1/1`.
proof fn lemma_of_equal_parts(k: int)
    requires
        0 < k <= u32::MAX,
    ensures
        Frac::of(k, k) == one(),
{
    lemma_gcd_self(k as nat);
    vstd::arithmetic::div_mod::lemma_div_by_self(k);
}

/// Zero over a positive integer is exactly `0/1`.
proof fn lemma_of_zero(d: int)
    requires
        0 < d <= u32::MAX,
    ensures
        Frac::of(0, d) == zero(),
{
    assert(magnitude(0) == 0 && magnitude(d) == d);
    assert(euclid(0, d as nat) == euclid(d as nat, 0));
    vstd::arithmetic::div_mod::lemma_div_by_self(d);
    vstd::arithmetic::div_mod::lemma_div_of0(d);
}

/// Updating a non-zero pivot `p` by `p - p * (p/p - 1/p)` gives exactly `1/1`.
proof fn lemma_unit_pivot(p: Frac)
    requires
        p.den > 0,
        p.num > 0,
        p.div_req(p),
        one().div_req(p),
        p.div_spec(p).sub_req(one().div_spec(p)),
        p.mul_req(self_ratio(p)),
        p.sub_req(p.mul_spec(self_ratio(p))),
    ensures
        p.sub_spec(p.mul_spec(self_ratio(p))) == one(),
{
    let a = p.div_spec(p);
    let b = one().div_spec(p);
    let q = self_ratio(p);
    let m = p.mul_spec(q);
    lemma_div_value(p, p);
    lemma_div_value(one(), p);
    lemma_sub_value(a, b);
    lemma_mul_value(p, q);
    let (sp, dp) = (p.signed_num(), p.den as int);
    let (sa, da) = (a.signed_num(), a.den as int);
    let (sb, db) = (b.signed_num(), b.den as int);
    let (sq, dq) = (q.signed_num(), q.den as int);
    let (sm, dm) = (m.signed_num(), m.den as int);
    assert(sp != 0);
    assert(sa == da) by (nonlinear_arith)
        requires
            sa * dp * sp == sp * dp * da,
            sp != 0,
            dp > 0,
    ;
    assert(sb * sp == dp * db) by (nonlinear_arith)
        requires
            sb * 1 * sp == 1 * dp * db,
    ;
    assert(sq * db == (db - sb) * dq) by (nonlinear_arith)
        requires
            sq * (da * db) == (sa * db - sb * da) * dq,
            sa == da,
            da > 0,
    ;
    assert(sm * dp * (dq * db) == db * (sm * (dp * dq))) by (nonlinear_arith);
    assert(db * (sm * (dp * dq)) == db * (sp * sq * dm));
    assert(db * (sp * sq * dm) == sp * dm * (sq * db)) by (nonlinear_arith);
    assert(sp * dm * (sq * db) == sp * dm * ((db - sb) * dq));
    assert(sp * dm * ((db - sb) * dq) == dq * dm * (sp * db - sb * sp)) by (nonlinear_arith);
    assert(dq * dm * (sp * db - sb * sp) == dq * dm * (sp * db - dp * db));
    assert(dq * dm * (sp * db - dp * db) == (sp - dp) * dm * (dq * db)) by (nonlinear_arith);
    assert(sm * dp == (sp - dp) * dm) by (nonlinear_arith)
        requires
            sm * dp * (dq * db) == (sp - dp) * dm * (dq * db),
            dq > 0,
            db > 0,
    ;
    assert(sp * dm - (sp - dp) * dm == dp * dm) by (nonlinear_arith);
    assert(p.diff_num(m) == dp * dm);
    assert(dp * dm > 0) by (nonlinear_arith)
        requires
            dp > 0,
            dm > 0,
    ;
    lemma_of_equal_parts(dp * dm);
}

/// Updating `x` by `x - s * (x/s)` for a non-zero `s` gives exactly `0/1`.
proof fn lemma_eliminated(x: Frac, s: Frac)
    requires
        x.den > 0,
        s.den > 0,
        s.num > 0,
        x.div_req(s),
        s.mul_req(x.div_spec(s)),
        x.sub_req(s.mul_spec(x.div_spec(s))),
    ensures
        x.sub_spec(s.mul_spec(x.div_spec(s))) == zero(),
{
    let d = x.div_spec(s);
    let m = s.mul_spec(d);
    lemma_div_value(x, s);
    lemma_mul_value(s, d);
    let (sx, dx) = (x.signed_num(), x.den as int);
    let (ss, ds) = (s.signed_num(), s.den as int);
    let (sd, dd) = (d.signed_num(), d.den as int);
    let (sm, dm) = (m.signed_num(), m.den as int);
    assert(sm * dx * (ds * dd) == dx * (sm * (ds * dd))) by (nonlinear_arith);
    assert(dx * (sm * (ds * dd)) == dx * (ss * sd * dm));
    assert(dx * (ss * sd * dm) == dm * (sd * dx * ss)) by (nonlinear_arith);
    assert(dm * (sd * dx * ss) == dm * (sx * ds * dd));
    assert(dm * (sx * ds * dd) == sx * dm * (ds * dd)) by (nonlinear_arith);
    assert(sm * dx == sx * dm) by (nonlinear_arith)
        requires
            sm * dx * (ds * dd) == sx * dm * (ds * dd),
            ds > 0,
            dd > 0,
    ;
    assert(x.diff_num(m) == 0);
    assert(dx * dm > 0) by (nonlinear_arith)
        requires
            dx > 0,
            dm > 0,
    ;
    lemma_of_zero(dx * dm);
}

/// Pivoting on a non-zero cell `(r, c)` turns column `c` into a unit
/// column: the pivot cell becomes exactly 1 and every other cell of the
/// column exactly 0, when the column's denominators are positive.
pub proof fn lemma_pivot_unit_column(t: Tableau, r: int, c: int)
    requires
        t.wf(),
        0 <= r < t.rows(),
        0 <= c < t.cols(),
        t.pivot_fits(r, c),
        t.cell(r, c).num > 0,
        forall|i: int| 0 <= i < t.rows() ==> (#[trigger] t.cell(i, c)).den > 0,
    ensures
        t.pivoted_cell(r, c, r, c) == one(),
        forall|i: int| 0 <= i < t.rows() && i != r ==> #[trigger] t.pivoted_cell(r, c, i, c) == zero(),
{
    let p = t.cell(r, c);
    assert(t.cell_update_fits(r, c, r, c));
    assert(t.cell(r, c).den > 0);
    lemma_unit_pivot(p);
    assert(t.pivot_row_cell(r, c, c) == one());
    assert forall|i: int| 0 <= i < t.rows() && i != r implies #[trigger] t.pivoted_cell(r, c, i, c)
        == zero() by {
        assert(t.cell_update_fits(r, c, i, c));
        assert(t.cell(i, c).den > 0);
        lemma_eliminated(t.cell(i, c), t.source_cell(r, c, i, c));
    }
}

} // verus!
