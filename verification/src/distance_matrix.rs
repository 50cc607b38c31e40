//! The dense matrix of costs between cells (rows) and tiles (columns).

use crate::error::DistanceMatrixError;
use crate::error::PhomoError;
use crate::solvers::outcome;
use crate::solvers::refusal;
use crate::solvers::Solve;
use vstd::arithmetic::div_mod::lemma_fundamental_div_mod;
use vstd::arithmetic::div_mod::lemma_fundamental_div_mod_converse;
use vstd::arithmetic::mul::lemma_mul_inequality;
use vstd::arithmetic::mul::lemma_mul_is_associative;
use vstd::arithmetic::mul::lemma_mul_is_distributive_add_other_way;
use vstd::prelude::*;

verus! {

/// `r * columns + c` is an index into the data of a `rows` by `columns` matrix.
pub proof fn lemma_cell_index(rows: int, columns: int, r: int, c: int)
    requires
        0 <= r < rows,
        0 <= c < columns,
    ensures
        0 <= r * columns + c < rows * columns,
        r * columns >= 0,
{
    assert(r * columns >= 0) by (nonlinear_arith)
        requires
            0 <= r,
            0 <= columns,
    ;
    assert(r * columns + columns <= rows * columns) by (nonlinear_arith)
        requires
            r + 1 <= rows,
            0 <= columns,
    ;
}

/// An index below `rows * wide` lies in one of the first `rows` rows.
proof fn lemma_div_bounds(i: int, wide: int, rows: int)
    requires
        0 <= i < rows * wide,
        wide > 0,
    ensures
        0 <= i / wide < rows,
        0 <= i % wide < wide,
{
    lemma_fundamental_div_mod(i, wide);
    let q = i / wide;
    assert(0 <= q < rows) by (nonlinear_arith)
        requires
            i == wide * q + i % wide,
            0 <= i % wide < wide,
            0 <= i < rows * wide,
            wide > 0,
    ;
}

/// A `rows` by `columns` matrix of costs, stored row after row.
#[derive(Debug, Clone, Eq, Hash, PartialEq)]
pub struct DistanceMatrix {
    pub rows: usize,
    pub columns: usize,
    pub data: Vec<i64>,
}

/// A cost matrix as a mathematical value: its shape and its entries.
pub struct Costs {
    pub rows: usize,
    pub columns: usize,
    pub data: Seq<i64>,
}

impl Costs {
    /// The matrix has at least one row and one column and its data holds
    /// exactly one entry for each pair of them.
    pub open spec fn wf(self) -> bool {
        &&& self.rows > 0
        &&& self.columns > 0
        &&& self.rows * self.columns == self.data.len()
    }

    /// The cost of putting tile `col` into cell `row`.
    pub open spec fn cost(self, row: int, col: int) -> int {
        self.data[row * (self.columns as int) + col] as int
    }

    /// The largest cost with which the solvers' sums of costs still fit a
    /// machine word: `i64::MAX / (rows + 1)`.
    pub open spec fn cost_limit(self) -> int {
        i64::MAX as int / (self.rows as int + 1)
    }

    /// Every cost is non-negative and at most [`Self::cost_limit`].
    pub open spec fn costs_bounded(self) -> bool {
        forall|i: int| 0 <= i < self.data.len() ==> 0 <= #[trigger] self.data[i] <= self.cost_limit()
    }

    /// Every row repeated `n` times side by side: column `c` of the result
    /// is column `c % columns` of `self`.
    pub open spec fn tile(self, n: usize) -> Costs {
        let wide = self.columns * n;
        Costs {
            rows: self.rows,
            columns: wide as usize,
            data: Seq::new(
                (self.rows * wide) as nat,
                |i: int| self.data[(i / wide) * self.columns + (i % wide) % (self.columns as int)],
            ),
        }
    }
}

impl View for DistanceMatrix {
    type V = Costs;

    open spec fn view(&self) -> Costs {
        Costs { rows: self.rows, columns: self.columns, data: self.data@ }
    }
}

impl DistanceMatrix {
    /// The matrix has at least one row and one column and its data holds
    /// exactly one entry for each pair of them.
    pub open spec fn wf(&self) -> bool {
        self@.wf()
    }

    /// The cost of putting tile `col` into cell `row`.
    pub open spec fn cost(&self, row: int, col: int) -> int {
        self@.cost(row, col)
    }

    /// The largest cost with which the solvers' sums of costs still fit a
    /// machine word: `i64::MAX / (rows + 1)`.
    pub open spec fn cost_limit(&self) -> int {
        self@.cost_limit()
    }

    /// Every cost is non-negative and at most [`Self::cost_limit`].
    pub open spec fn costs_bounded(&self) -> bool {
        self@.costs_bounded()
    }

    /// Checks the shape and wraps `data` as a matrix.
    ///
    /// The checks come in a fixed order: the length of the data, then the
    /// number of rows, then the number of columns.
    pub fn new(rows: usize, columns: usize, data: Vec<i64>) -> (res: Result<Self, PhomoError>)
        ensures
            rows * columns != data.len() ==> res matches Err(
                PhomoError::DistanceMatrixError(DistanceMatrixError::WrongLength),
            ),
            rows * columns == data.len() && rows == 0 ==> res matches Err(
                PhomoError::DistanceMatrixError(DistanceMatrixError::EmptyRow),
            ),
            rows * columns == data.len() && rows != 0 && columns == 0 ==> res matches Err(
                PhomoError::DistanceMatrixError(DistanceMatrixError::EmptyCol),
            ),
            rows * columns == data.len() && rows != 0 && columns != 0 ==> (res matches Ok(m)
                && m.wf() && m.rows == rows && m.columns == columns && m.data == data),
    {
        let wrong_length = match rows.checked_mul(columns) {
            Some(expected) => expected != data.len(),
            None => true,
        };
        if wrong_length {
            return Err(PhomoError::DistanceMatrixError(DistanceMatrixError::WrongLength));
        }
        if rows == 0 {
            return Err(PhomoError::DistanceMatrixError(DistanceMatrixError::EmptyRow));
        }
        if columns == 0 {
            return Err(PhomoError::DistanceMatrixError(DistanceMatrixError::EmptyCol));
        }
        Ok(Self { rows, columns, data })
    }

    /// The entry at `row * columns + col`.
    pub fn get(&self, row: usize, col: usize) -> (cost: i64)
        requires
            row * self.columns + col < self.data.len(),
        ensures
            cost == self.cost(row as int, col as int),
    {
        assert(row * self.columns >= 0) by (nonlinear_arith);
        self.data[row * self.columns + col]
    }

    /// Repeats every row `n` times side by side.
    ///
    /// Column `c` of the result costs what column `c % columns` of `self`
    /// costs, so `n` copies of each tile stand next to each other.
    pub fn tile(&self, n: usize) -> (tiled: DistanceMatrix)
        requires
            self.wf(),
            self.rows * self.columns * n <= usize::MAX,
        ensures
            tiled.rows == self.rows,
            tiled.columns == self.columns * n,
            tiled.data.len() == self.rows * self.columns * n,
            n > 0 ==> tiled.wf(),
            tiled@ == self@.tile(n),
            forall|r: int, c: int|
                0 <= r < self.rows && 0 <= c < self.columns * n ==> #[trigger] tiled.cost(r, c)
                    == self.cost(r, c % (self.columns as int)),
    {
        let rows = self.rows;
        let columns = self.columns;
        let ghost wide: int = columns * n;
        proof {
            assert(self.data.len() == self@.data.len());
            lemma_mul_is_associative(rows as int, columns as int, n as int);
            assert(wide <= rows * wide) by (nonlinear_arith)
                requires
                    rows >= 1,
                    wide >= 0,
            ;
        }
        let wide_columns = columns * n;
        let mut data: Vec<i64> = Vec::new();
        let mut r: usize = 0;
        while r < rows
            invariant
                self.wf(),
                rows * columns == self.data.len(),
                rows == self.rows,
                columns == self.columns,
                wide == columns * n,
                rows * wide <= usize::MAX,
                0 <= r <= rows,
                data.len() == r * wide,
                forall|i: int, c: int|
                    0 <= i < r && 0 <= c < wide ==> #[trigger] data@[i * wide + c]
                        == self.data@[i * columns + c % (columns as int)],
            decreases rows - r,
        {
            let mut t: usize = 0;
            while t < n
                invariant
                    self.wf(),
                    rows * columns == self.data.len(),
                    rows == self.rows,
                    columns == self.columns,
                    wide == columns * n,
                    rows * wide <= usize::MAX,
                    0 <= r < rows,
                    0 <= t <= n,
                    data.len() == r * wide + t * columns,
                    forall|i: int, c: int|
                        0 <= i < r && 0 <= c < wide ==> #[trigger] data@[i * wide + c]
                            == self.data@[i * columns + c % (columns as int)],
                    forall|c: int|
                        0 <= c < t * columns ==> #[trigger] data@[r * wide + c] == self.data@[r
                            * columns + c % (columns as int)],
                decreases n - t,
            {
                let mut c: usize = 0;
                while c < columns
                    invariant
                        self.wf(),
                        rows * columns == self.data.len(),
                        rows == self.rows,
                        columns == self.columns,
                        wide == columns * n,
                        rows * wide <= usize::MAX,
                        0 <= r < rows,
                        0 <= t < n,
                        0 <= c <= columns,
                        data.len() == r * wide + t * columns + c,
                        forall|i: int, c: int|
                            0 <= i < r && 0 <= c < wide ==> #[trigger] data@[i * wide + c]
                                == self.data@[i * columns + c % (columns as int)],
                        forall|k: int|
                            0 <= k < t * columns + c ==> #[trigger] data@[r * wide + k]
                                == self.data@[r * columns + k % (columns as int)],
                    decreases columns - c,
                {
                    proof {
                        lemma_mul_inequality(r as int, rows as int - 1, columns as int);
                        lemma_mul_is_distributive_add_other_way(
                            columns as int,
                            rows as int - 1,
                            1,
                        );
                        lemma_fundamental_div_mod_converse(
                            t * columns + c,
                            columns as int,
                            t as int,
                            c as int,
                        );
                        lemma_mul_inequality(r as int, rows as int - 1, wide);
                        lemma_mul_is_distributive_add_other_way(wide, rows as int - 1, 1);
                        lemma_mul_inequality(t as int, n as int - 1, columns as int);
                        lemma_mul_is_distributive_add_other_way(columns as int, n as int - 1, 1);
                    }
                    let ghost before = data@;
                    let value = self.data[r * columns + c];
                    data.push(value);
                    assert forall|i: int, c: int| 0 <= i < r && 0 <= c < wide implies #[trigger] data@[i
                        * wide + c] == self.data@[i * columns + c % (columns as int)] by {
                        lemma_mul_inequality(i, r as int - 1, wide);
                        lemma_mul_is_distributive_add_other_way(wide, r as int - 1, 1);
                        assert(data@[i * wide + c] == before[i * wide + c]);
                    }
                    assert forall|k: int| 0 <= k < t * columns + c + 1 implies #[trigger] data@[r
                        * wide + k] == self.data@[r * columns + k % (columns as int)] by {
                        if k < t * columns + c {
                            assert(data@[r * wide + k] == before[r * wide + k]);
                        }
                    }
                    c += 1;
                }
                proof {
                    lemma_mul_is_distributive_add_other_way(columns as int, t as int, 1);
                }
                t += 1;
            }
            proof {
                lemma_mul_is_distributive_add_other_way(wide, r as int, 1);
                assert(n * columns == wide) by (nonlinear_arith)
                    requires
                        wide == columns * n,
                ;
            }
            r += 1;
        }
        let tiled = DistanceMatrix { rows, columns: wide_columns, data };
        proof {
            if n > 0 {
                assert(wide > 0) by (nonlinear_arith)
                    requires
                        wide == columns * n,
                        columns > 0,
                        n > 0,
                ;
            }
            assert forall|r: int, c: int| 0 <= r < self.rows && 0 <= c < self.columns * n implies #[trigger] tiled.cost(
                r,
                c,
            ) == self.cost(r, c % (self.columns as int)) by {
                assert(tiled.data@[r * wide + c] == self.data@[r * columns + c % (columns as int)]);
            }
            let goal = self@.tile(n);
            assert(tiled@.data =~= goal.data) by {
                assert forall|i: int| 0 <= i < rows * wide implies tiled.data@[i] == goal.data[i] by {
                    let r = i / wide;
                    let c = i % wide;
                    lemma_fundamental_div_mod(i, wide);
                    lemma_div_bounds(i, wide, rows as int);
                    assert(i == wide * r + c);
                    assert(wide * r == r * wide) by (nonlinear_arith);
                    assert(tiled.data@[r * wide + c] == self.data@[r * columns + c % (columns
                        as int)]);
                }
            }
        }
        tiled
    }
}

impl DistanceMatrix {
    /// Tests whether the matrix has a row, a column, and exactly one entry
    /// for every pair of them.
    pub fn is_well_formed(&self) -> (ok: bool)
        ensures
            ok == self.wf(),
    {
        if self.rows == 0 || self.columns == 0 {
            return false;
        }
        proof {
            assert(self.data.len() == self@.data.len());
        }
        match self.rows.checked_mul(self.columns) {
            Some(entries) => entries == self.data.len(),
            None => false,
        }
    }

    /// Tests whether every cost lies between zero and `limit`.
    pub fn costs_within(&self, limit: i64) -> (ok: bool)
        ensures
            ok == (forall|i: int| 0 <= i < self.data.len() ==> 0 <= #[trigger] self.data@[i] <= limit),
    {
        let mut i: usize = 0;
        while i < self.data.len()
            invariant
                i <= self.data.len(),
                forall|j: int| 0 <= j < i ==> 0 <= #[trigger] self.data@[j] <= limit,
            decreases self.data.len() - i,
        {
            if self.data[i] < 0 || self.data[i] > limit {
                return false;
            }
            i += 1;
        }
        true
    }

    /// `i64::MAX / (divisor * (rows + 1))`, the cost limit of a solver.
    pub fn limit_for(&self, divisor: u8) -> (limit: i64)
        requires
            divisor > 0,
        ensures
            limit == i64::MAX as int / (divisor * (self.rows as int + 1)),
    {
        let rows_and_one: u128 = self.rows as u128 + 1;
        proof {
            assert(1 <= divisor * rows_and_one <= 255 * 0x1_0000_0000_0000_0000) by (nonlinear_arith)
                requires
                    1 <= divisor <= 255,
                    1 <= rows_and_one <= 0x1_0000_0000_0000_0000,
            ;
        }
        let parts: u128 = divisor as u128 * rows_and_one;
        let limit: u128 = i64::MAX as u128 / parts;
        proof {
            assert(i64::MAX as int / (parts as int) <= i64::MAX) by (nonlinear_arith)
                requires
                    parts >= 1,
            ;
            assert(i64::MAX as int / (parts as int) >= 0) by (nonlinear_arith)
                requires
                    parts >= 1,
            ;
        }
        limit as i64
    }

    /// Lets `solver` assign a tile to every row of this matrix.
    pub fn assignments<S: Solve>(&self, solver: &mut S) -> (res: Result<Vec<usize>, PhomoError>)
        requires
            refusal(old(solver).config(), self@) is None ==> self.wf() && old(solver).accepts(
                self@,
            ),
        ensures
            *final(solver) == *old(solver),
            outcome(old(solver).config(), self@, res),
            res matches Ok(assignment) ==> assignment@ == old(solver).assignment(self@),
    {
        solver.solve(self)
    }
}

/// Tiling keeps every cost within the limit.
pub proof fn lemma_tile_bounded(m: Costs, n: usize)
    requires
        m.wf(),
        m.costs_bounded(),
        n > 0,
        m.columns * n <= usize::MAX,
    ensures
        m.tile(n).wf(),
        m.tile(n).costs_bounded(),
        m.tile(n).rows == m.rows,
        m.tile(n).columns == m.columns * n,
{
    let wide = m.columns * n;
    let t = m.tile(n);
    assert(wide > 0) by (nonlinear_arith)
        requires
            wide == m.columns * n,
            m.columns > 0,
            n > 0,
    ;
    assert forall|i: int| 0 <= i < t.data.len() implies 0 <= #[trigger] t.data[i]
        <= t.cost_limit() by {
        lemma_div_bounds(i, wide, m.rows as int);
        let r = i / wide;
        let c = (i % wide) % (m.columns as int);
        assert(0 <= c < m.columns) by {
            lemma_fundamental_div_mod(i % wide, m.columns as int);
        }
        assert(0 <= r * m.columns + c < m.rows * m.columns) by (nonlinear_arith)
            requires
                0 <= r < m.rows,
                0 <= c < m.columns,
        ;
        assert(t.data[i] == m.data[r * m.columns + c]);
    }
}

/// Tiling once changes nothing.
pub proof fn lemma_tile_once(m: Costs)
    requires
        m.wf(),
        m.rows * m.columns <= usize::MAX,
    ensures
        m.tile(1) == m,
{
    let t = m.tile(1);
    let columns = m.columns as int;
    assert(m.columns <= m.rows * m.columns) by (nonlinear_arith)
        requires
            m.rows >= 1,
            m.columns >= 0,
    ;
    assert(t.data =~= m.data) by {
        assert forall|i: int| 0 <= i < m.data.len() implies t.data[i] == m.data[i] by {
            lemma_div_bounds(i, columns, m.rows as int);
            lemma_fundamental_div_mod(i, columns);
            lemma_fundamental_div_mod(i % columns, columns);
            vstd::arithmetic::div_mod::lemma_small_mod((i % columns) as nat, columns as nat);
            assert((i / columns) * columns == columns * (i / columns)) by (nonlinear_arith);
        }
    }
}

} // verus!
