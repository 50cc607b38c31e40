//! Linear sum assignment by shortest augmenting paths.
//!
//! Rows are matched one after the other. For each row a search over reduced
//! costs finds the cheapest alternating path to a free column, the dual
//! values are moved so that the path becomes tight, and the matching is
//! flipped along the path.

use crate::assignment::in_range;
use crate::assignment::injective;
use crate::assignment::is_matching;
use crate::assignment::lemma_picked_is_masked_sum;
use crate::assignment::lemma_seq_sum_le;
use crate::assignment::masked;
use crate::assignment::picked;
use crate::assignment::total_cost;
use crate::distance_matrix::lemma_cell_index;
use crate::distance_matrix::Costs;
use crate::distance_matrix::DistanceMatrix;
use crate::solvers::error::HungarianError;
use vstd::prelude::*;

verus! {

/// Marks a row without a column and a column without a row.
pub const UNASSIGNED: usize = usize::MAX;

/// The working arrays of the solver as mathematical sequences.
pub struct LsapState {
    pub dual_row: Seq<i64>,
    pub dual_col: Seq<i64>,
    pub path_cost: Seq<i64>,
    pub pred: Seq<usize>,
    pub col_of: Seq<usize>,
    pub row_of: Seq<usize>,
    pub sel_rows: Seq<bool>,
    pub sel_cols: Seq<bool>,
    pub remaining: Seq<usize>,
}

/// What one pass over the remaining columns yields.
pub struct Scan {
    pub path_cost: Seq<i64>,
    pub pred: Seq<usize>,
    pub lowest: i64,
    pub index: usize,
}

/// The solver for one matrix.
struct LsapSolver<'a> {
    distance_matrix: &'a DistanceMatrix,
    dual_row_values: Vec<i64>,
    dual_column_values: Vec<i64>,
    shortest_path_costs: Vec<i64>,
    augmentation_path: Vec<usize>,
    column_assigned_to_row: Vec<usize>,
    row_assigned_to_column: Vec<usize>,
    selected_rows: Vec<bool>,
    selected_columns: Vec<bool>,
    remaining_columns: Vec<usize>,
}

impl<'a> View for LsapSolver<'a> {
    type V = LsapState;

    closed spec fn view(&self) -> LsapState {
        LsapState {
            dual_row: self.dual_row_values@,
            dual_col: self.dual_column_values@,
            path_cost: self.shortest_path_costs@,
            pred: self.augmentation_path@,
            col_of: self.column_assigned_to_row@,
            row_of: self.row_assigned_to_column@,
            sel_rows: self.selected_rows@,
            sel_cols: self.selected_columns@,
            remaining: self.remaining_columns@,
        }
    }
}

/// The arrays have the lengths that the matrix asks for.
spec fn shaped(s: LsapState, m: Costs) -> bool {
    &&& s.dual_row.len() == m.rows
    &&& s.dual_col.len() == m.columns
    &&& s.path_cost.len() == m.columns
    &&& s.pred.len() == m.columns
    &&& s.col_of.len() == m.rows
    &&& s.row_of.len() == m.columns
    &&& s.sel_rows.len() == m.rows
    &&& s.sel_cols.len() == m.columns
    &&& s.remaining.len() == m.columns
}

/// The cost of reaching column `j` through `row`, when `row` itself is
/// reached at cost `min_val`.
pub open spec fn reduced(m: Costs, s: LsapState, row: int, min_val: int, j: int) -> int {
    min_val + m.cost(row, j) - s.dual_row[row] - s.dual_col[j]
}

/// The effect of looking at the column at position `it` of the remaining ones.
pub open spec fn scan_visit(
    m: Costs,
    s: LsapState,
    row: usize,
    min_val: i64,
    acc: Scan,
    it: int,
) -> Scan {
    let j = s.remaining[it] as int;
    let r = reduced(m, s, row as int, min_val as int, j) as i64;
    let improved = r < acc.path_cost[j];
    let path_cost = if improved {
        acc.path_cost.update(j, r)
    } else {
        acc.path_cost
    };
    let pred = if improved {
        acc.pred.update(j, row)
    } else {
        acc.pred
    };
    let better = path_cost[j] < acc.lowest || (path_cost[j] == acc.lowest && s.row_of[j]
        == UNASSIGNED);
    Scan {
        path_cost,
        pred,
        lowest: if better {
            path_cost[j]
        } else {
            acc.lowest
        },
        index: if better {
            it as usize
        } else {
            acc.index
        },
    }
}

/// The effect of looking at the first `n` remaining columns in turn.
pub open spec fn scan_model(m: Costs, s: LsapState, row: usize, min_val: i64, n: nat) -> Scan
    decreases n,
{
    if n == 0 {
        Scan { path_cost: s.path_cost, pred: s.pred, lowest: i64::MAX, index: usize::MAX }
    } else {
        scan_visit(m, s, row, min_val, scan_model(m, s, row, min_val, (n - 1) as nat), n - 1)
    }
}

/// The remaining columns are a rearrangement of all columns: `pos` is the
/// inverse of `remaining`.
spec fn arranged(s: LsapState, m: Costs, pos: Seq<int>) -> bool {
    &&& pos.len() == m.columns
    &&& forall|p: int|
        0 <= p < m.columns ==> 0 <= #[trigger] s.remaining[p] < m.columns && pos[s.remaining[p] as int]
            == p
    &&& forall|j: int|
        0 <= j < m.columns ==> 0 <= #[trigger] pos[j] < m.columns && s.remaining[pos[j]] == j
}

/// What a scan of `row` needs: the row's dual value and all column dual
/// values lie within `bound`, and no reduced cost is negative.
spec fn scannable(
    s: LsapState,
    m: Costs,
    pos: Seq<int>,
    row: int,
    min_val: int,
    bound: int,
) -> bool {
    &&& m.wf()
    &&& m.costs_bounded()
    &&& shaped(s, m)
    &&& arranged(s, m, pos)
    &&& 0 <= row < m.rows
    &&& 0 <= min_val <= m.cost_limit()
    &&& 0 <= bound
    &&& bound + 2 * m.cost_limit() <= i64::MAX
    &&& 0 <= s.dual_row[row] <= bound
    &&& forall|j: int| 0 <= j < m.columns ==> -bound <= #[trigger] s.dual_col[j] <= 0
    &&& forall|j: int|
        0 <= j < m.columns ==> s.dual_row[row] + s.dual_col[j] <= #[trigger] m.cost(row, j)
}

/// How the arrays after a scan of the first `n` remaining columns relate to
/// the arrays before it.
spec fn scanned(
    before: LsapState,
    m: Costs,
    row: int,
    min_val: int,
    n: int,
    sc: Scan,
) -> bool {
    &&& sc.path_cost.len() == m.columns
    &&& sc.pred.len() == m.columns
    &&& forall|p: int|
        #![trigger before.remaining[p]]
        0 <= p < n ==> {
            let j = before.remaining[p] as int;
            let r = reduced(m, before, row, min_val, j);
            &&& sc.path_cost[j] == (if r < before.path_cost[j] {
                r
            } else {
                before.path_cost[j] as int
            })
            &&& sc.pred[j] == (if r < before.path_cost[j] {
                row
            } else {
                before.pred[j] as int
            })
            &&& sc.lowest <= sc.path_cost[j]
        }
    &&& forall|p: int|
        #![trigger before.remaining[p]]
        n <= p < m.columns ==> {
            let j = before.remaining[p] as int;
            &&& sc.path_cost[j] == before.path_cost[j]
            &&& sc.pred[j] == before.pred[j]
        }
    &&& sc.lowest < i64::MAX ==> 0 <= sc.index < n && sc.path_cost[before.remaining[sc.index as int] as int]
        == sc.lowest
}

/// The number of columns without a row.
spec fn free_columns(row_of: Seq<usize>) -> nat
    decreases row_of.len(),
{
    if row_of.len() == 0 {
        0
    } else {
        free_columns(row_of.drop_last()) + (if row_of.last() == UNASSIGNED {
            1nat
        } else {
            0nat
        })
    }
}

/// Where some column is free, one can be named.
proof fn lemma_free_column_exists(row_of: Seq<usize>) -> (j: int)
    requires
        free_columns(row_of) > 0,
    ensures
        0 <= j < row_of.len(),
        row_of[j] == UNASSIGNED,
    decreases row_of.len(),
{
    if row_of.last() == UNASSIGNED {
        row_of.len() - 1
    } else {
        lemma_free_column_exists(row_of.drop_last())
    }
}

/// Giving a free column a row leaves one free column less; moving an
/// assigned column to another row changes nothing.
proof fn lemma_free_columns_update(row_of: Seq<usize>, j: int, row: usize)
    requires
        0 <= j < row_of.len(),
        row != UNASSIGNED,
    ensures
        free_columns(row_of.update(j, row)) + (if row_of[j] == UNASSIGNED {
            1nat
        } else {
            0nat
        }) == free_columns(row_of),
    decreases row_of.len(),
{
    let after = row_of.update(j, row);
    if j == row_of.len() - 1 {
        assert(after.drop_last() =~= row_of.drop_last());
    } else {
        assert(after.drop_last() =~= row_of.drop_last().update(j, row));
        lemma_free_columns_update(row_of.drop_last(), j, row);
    }
}

/// Where no column has a row, all columns are free.
proof fn lemma_free_columns_all(row_of: Seq<usize>)
    requires
        forall|j: int| 0 <= j < row_of.len() ==> row_of[j] == UNASSIGNED,
    ensures
        free_columns(row_of) == row_of.len(),
    decreases row_of.len(),
{
    if row_of.len() > 0 {
        lemma_free_columns_all(row_of.drop_last());
    }
}

/// The first `r` rows are matched to distinct columns, and no other row is.
spec fn matched(s: LsapState, m: Costs, r: int) -> bool {
    &&& forall|i: int|
        0 <= i < r ==> (#[trigger] s.col_of[i]) < m.columns && s.row_of[s.col_of[i] as int] == i
    &&& forall|i: int| r <= i < m.rows ==> #[trigger] s.col_of[i] == UNASSIGNED
    &&& forall|j: int|
        0 <= j < m.columns ==> #[trigger] s.row_of[j] == UNASSIGNED || (s.row_of[j] < r
            && s.col_of[s.row_of[j] as int] == j)
}

/// The dual values never exceed a cost, meet it on every matched pair, are
/// zero on unmatched rows and columns, and stay within `bound`.
spec fn priced(s: LsapState, m: Costs, r: int, bound: int) -> bool {
    &&& forall|i: int, j: int|
        0 <= i < m.rows && 0 <= j < m.columns ==> s.dual_row[i] + s.dual_col[j] <= #[trigger] m.cost(
            i,
            j,
        )
    &&& forall|i: int|
        0 <= i < r ==> (#[trigger] s.dual_row[i]) + s.dual_col[s.col_of[i] as int] == m.cost(
            i,
            s.col_of[i] as int,
        )
    &&& forall|j: int|
        0 <= j < m.columns ==> -bound <= #[trigger] s.dual_col[j] <= 0 && (s.row_of[j]
            == UNASSIGNED ==> s.dual_col[j] == 0)
    &&& forall|i: int|
        0 <= i < m.rows ==> 0 <= #[trigger] s.dual_row[i] <= bound && (i >= r ==> s.dual_row[i]
            == 0)
}

/// Everything that holds between two rows: shapes, matching, dual values
/// and the number of free columns.
spec fn between_rows(s: LsapState, m: Costs, r: int, bound: int) -> bool {
    &&& m.wf()
    &&& m.costs_bounded()
    &&& m.rows <= m.columns
    &&& shaped(s, m)
    &&& 0 <= r <= m.rows
    &&& 0 <= bound
    &&& matched(s, m, r)
    &&& priced(s, m, r, bound)
    &&& free_columns(s.row_of) == m.columns - r
}

/// The cost at which the search reaches row `i`.
spec fn dist(s: LsapState, r: int, i: int) -> int {
    if i == r {
        0
    } else {
        s.path_cost[s.col_of[i] as int] as int
    }
}

/// The selected columns are those at the positions from `nrem` on.
spec fn cols_inv(s: LsapState, m: Costs, nrem: int, pos: Seq<int>) -> bool {
    &&& arranged(s, m, pos)
    &&& 0 <= nrem <= m.columns
    &&& forall|j: int| 0 <= j < m.columns ==> (#[trigger] s.sel_cols[j] <==> pos[j] >= nrem)
}

/// A selected row is the row being matched or the row of a selected column.
spec fn rows_inv(s: LsapState, m: Costs, r: int) -> bool {
    forall|i: int|
        0 <= i < m.rows && #[trigger] s.sel_rows[i] ==> i == r || (i < r
            && s.sel_cols[s.col_of[i] as int])
}

/// No path cost exceeds the cost of the way through a selected row.
spec fn dist_inv(s: LsapState, m: Costs, r: int) -> bool {
    forall|i: int, j: int|
        0 <= i < m.rows && 0 <= j < m.columns && s.sel_rows[i] ==> s.path_cost[j] <= dist(s, r, i)
            + #[trigger] m.cost(i, j) - s.dual_row[i] - s.dual_col[j]
}

/// Every known path cost is the cost of the way through the column's
/// predecessor, which was selected before the column.
spec fn path_inv(s: LsapState, m: Costs, r: int, pos: Seq<int>) -> bool {
    forall|j: int|
        0 <= j < m.columns && #[trigger] s.path_cost[j] != i64::MAX ==> {
            let p = s.pred[j] as int;
            &&& 0 <= p < m.rows
            &&& s.sel_rows[p]
            &&& s.path_cost[j] == dist(s, r, p) + m.cost(p, j) - s.dual_row[p] - s.dual_col[j]
            &&& p != r ==> pos[s.col_of[p] as int] > pos[j]
            &&& 0 <= s.path_cost[j]
        }
}

/// Selected columns are reached at `min_val` or less, the others at
/// `min_val` or more.
spec fn split_inv(s: LsapState, m: Costs, min_val: int) -> bool {
    forall|j: int|
        0 <= j < m.columns ==> (if #[trigger] s.sel_cols[j] {
            s.path_cost[j] <= min_val
        } else {
            s.path_cost[j] >= min_val
        })
}

/// What the search has established about the rows and columns it has
/// selected so far.
spec fn search_inv(
    s: LsapState,
    m: Costs,
    r: int,
    min_val: int,
    nrem: int,
    pos: Seq<int>,
) -> bool {
    &&& 0 <= min_val <= m.cost_limit()
    &&& cols_inv(s, m, nrem, pos)
    &&& rows_inv(s, m, r)
    &&& dist_inv(s, m, r)
    &&& path_inv(s, m, r, pos)
    &&& split_inv(s, m, min_val)
}

/// One round of the search leaves dual values and matching alone, selects
/// the row `cur` and the column `j`.
spec fn round_frame(
    before: LsapState,
    s: LsapState,
    m: Costs,
    cur: int,
    j: int,
) -> bool {
    &&& shaped(before, m)
    &&& shaped(s, m)
    &&& s.dual_row == before.dual_row
    &&& s.dual_col == before.dual_col
    &&& s.col_of == before.col_of
    &&& s.row_of == before.row_of
    &&& s.sel_rows == before.sel_rows.update(cur, true)
    &&& s.sel_cols == before.sel_cols.update(j, true)
    &&& 0 <= cur < m.rows
    &&& 0 <= j < m.columns
    &&& !before.sel_cols[j]
}

/// What a scan of `cur` does to each column: a selected column keeps its
/// path cost, any other gets the lower of its path cost and the cost of the
/// way through `cur`, which is `lowest` or more.
spec fn relaxed(
    before: LsapState,
    s: LsapState,
    m: Costs,
    cur: int,
    old_min: int,
    lowest: int,
) -> bool {
    forall|c: int|
        0 <= c < m.columns ==> (if before.sel_cols[c] {
            #[trigger] s.path_cost[c] == before.path_cost[c] && s.pred[c] == before.pred[c]
        } else {
            let red = reduced(m, before, cur, old_min, c);
            &&& s.path_cost[c] == (if red < before.path_cost[c] {
                red
            } else {
                before.path_cost[c] as int
            })
            &&& s.pred[c] == (if red < before.path_cost[c] {
                cur
            } else {
                before.pred[c] as int
            })
            &&& lowest <= s.path_cost[c]
            &&& red >= old_min
            &&& s.path_cost[c] >= old_min
        })
}

/// The dual values never exceed a cost.
spec fn feasible(s: LsapState, m: Costs) -> bool {
    forall|i: int, j: int|
        0 <= i < m.rows && 0 <= j < m.columns ==> s.dual_row[i] + s.dual_col[j] <= #[trigger] m.cost(
            i,
            j,
        )
}

/// A scan, read column by column.
proof fn lemma_relaxed(
    before: LsapState,
    marked: LsapState,
    s: LsapState,
    m: Costs,
    cur: int,
    old_min: int,
    nrem: int,
    pos: Seq<int>,
    sc: Scan,
)
    requires
        m.wf(),
        shaped(before, m),
        cols_inv(before, m, nrem, pos),
        split_inv(before, m, old_min),
        feasible(before, m),
        0 <= cur < m.rows,
        marked == (LsapState { sel_rows: before.sel_rows.update(cur, true), ..before }),
        scanned(marked, m, cur, old_min, nrem, sc),
        s.path_cost == sc.path_cost,
        s.pred == sc.pred,
    ensures
        relaxed(before, s, m, cur, old_min, sc.lowest as int),
{
    assert forall|c: int| 0 <= c < m.columns implies (if before.sel_cols[c] {
        #[trigger] s.path_cost[c] == before.path_cost[c] && s.pred[c] == before.pred[c]
    } else {
        let red = reduced(m, before, cur, old_min, c);
        &&& s.path_cost[c] == (if red < before.path_cost[c] {
            red
        } else {
            before.path_cost[c] as int
        })
        &&& s.pred[c] == (if red < before.path_cost[c] {
            cur
        } else {
            before.pred[c] as int
        })
        &&& sc.lowest <= s.path_cost[c]
        &&& red >= old_min
        &&& s.path_cost[c] >= old_min
    }) by {
        let p = pos[c];
        assert(marked.remaining[p] == c);
        assert(before.dual_row[cur] + before.dual_col[c] <= m.cost(cur, c));
        assert(reduced(m, marked, cur, old_min, c) == reduced(m, before, cur, old_min, c));
    }
}

/// Taking the column at `index` out of the remaining ones keeps the
/// arrangement; columns selected before keep their positions.
proof fn lemma_round_cols(
    before: LsapState,
    s: LsapState,
    m: Costs,
    cur: int,
    j: int,
    index: int,
    nrem: int,
    old_pos: Seq<int>,
) -> (pos: Seq<int>)
    requires
        round_frame(before, s, m, cur, j),
        cols_inv(before, m, nrem, old_pos),
        0 <= index < nrem,
        j == before.remaining[index],
        s.remaining == before.remaining.update(index, before.remaining[nrem - 1]).update(
            nrem - 1,
            j as usize,
        ),
    ensures
        pos == old_pos.update(before.remaining[nrem - 1] as int, index).update(j, nrem - 1),
        cols_inv(s, m, nrem - 1, pos),
        forall|c: int|
            0 <= c < m.columns ==> (if before.sel_cols[c] {
                #[trigger] pos[c] == old_pos[c] && pos[c] >= nrem
            } else {
                pos[c] < nrem
            }),
{
    let moved = before.remaining[nrem - 1] as int;
    let pos = old_pos.update(moved, index).update(j, nrem - 1);
    assert(old_pos[j] == index);
    assert(old_pos[moved] == nrem - 1);
    assert forall|p: int| 0 <= p < m.columns implies 0 <= #[trigger] s.remaining[p] < m.columns
        && pos[s.remaining[p] as int] == p by {
        let c = before.remaining[p];
        assert(old_pos[c as int] == p);
    }
    assert forall|c: int| 0 <= c < m.columns implies 0 <= #[trigger] pos[c] < m.columns
        && s.remaining[pos[c]] == c by {
        assert(before.remaining[old_pos[c]] == c);
    }
    assert forall|c: int| 0 <= c < m.columns implies (#[trigger] s.sel_cols[c] <==> pos[c] >= nrem
        - 1) by {
        assert(before.sel_cols[c] <==> old_pos[c] >= nrem);
        assert(before.remaining[old_pos[c]] == c);
    }
    assert forall|c: int| 0 <= c < m.columns implies (if before.sel_cols[c] {
        #[trigger] pos[c] == old_pos[c] && pos[c] >= nrem
    } else {
        pos[c] < nrem
    }) by {
        assert(before.sel_cols[c] <==> old_pos[c] >= nrem);
        assert(before.remaining[old_pos[c]] == c);
    }
    pos
}

/// After a round every selected row is still the row being matched or the
/// row of a column that was selected before the round.
proof fn lemma_round_rows(
    before: LsapState,
    s: LsapState,
    m: Costs,
    r: int,
    cur: int,
    j: int,
    min_val: int,
)
    requires
        0 <= r < m.rows,
        matched(before, m, r),
        round_frame(before, s, m, cur, j),
        rows_inv(before, m, r),
        pending(before, m, r, cur, min_val),
    ensures
        forall|i: int|
            0 <= i < m.rows && #[trigger] s.sel_rows[i] ==> i == r || (i < r
                && before.sel_cols[s.col_of[i] as int]),
        rows_inv(s, m, r),
        s.sel_rows[r],
{
    assert forall|i: int| 0 <= i < m.rows && #[trigger] s.sel_rows[i] implies i == r || (i < r
        && before.sel_cols[s.col_of[i] as int]) by {
        if i != cur {
            assert(before.sel_rows[i]);
        }
    }
}

/// After a round no path cost exceeds the cost of the way through a
/// selected row.
proof fn lemma_round_dist(
    before: LsapState,
    s: LsapState,
    m: Costs,
    r: int,
    cur: int,
    j: int,
    old_min: int,
    lowest: int,
)
    requires
        0 <= r < m.rows,
        matched(before, m, r),
        round_frame(before, s, m, cur, j),
        feasible(before, m),
        rows_inv(before, m, r),
        dist_inv(before, m, r),
        split_inv(before, m, old_min),
        pending(before, m, r, cur, old_min),
        relaxed(before, s, m, cur, old_min, lowest),
        before.col_of.len() == m.rows,
        forall|i: int| 0 <= i < r ==> (#[trigger] before.col_of[i]) < m.columns,
    ensures
        dist_inv(s, m, r),
{
    assert forall|i: int, c: int|
        0 <= i < m.rows && 0 <= c < m.columns && s.sel_rows[i] implies s.path_cost[c] <= dist(
        s,
        r,
        i,
    ) + #[trigger] m.cost(i, c) - s.dual_row[i] - s.dual_col[c] by {
        assert(before.dual_row[i] + before.dual_col[c] <= m.cost(i, c));
        if i != cur {
            assert(before.sel_rows[i]);
        }
        if i != r {
            let ci = before.col_of[i] as int;
            assert(ci < m.columns);
            assert(before.sel_cols[ci]);
            assert(s.path_cost[ci] == before.path_cost[ci]);
        }
        if i == cur {
            if before.sel_cols[c] {
                assert(before.path_cost[c] <= old_min);
            }
        } else {
            assert(before.path_cost[c] <= dist(before, r, i) + m.cost(i, c) - before.dual_row[i]
                - before.dual_col[c]);
        }
    }
}

/// After a round every known path cost is still explained by the column's
/// predecessor.
proof fn lemma_round_path(
    before: LsapState,
    s: LsapState,
    m: Costs,
    r: int,
    cur: int,
    j: int,
    old_min: int,
    lowest: int,
    nrem: int,
    old_pos: Seq<int>,
    pos: Seq<int>,
)
    requires
        0 <= r < m.rows,
        matched(before, m, r),
        round_frame(before, s, m, cur, j),
        rows_inv(before, m, r),
        path_inv(before, m, r, old_pos),
        pending(before, m, r, cur, old_min),
        relaxed(before, s, m, cur, old_min, lowest),
        0 <= old_min,
        forall|i: int| 0 <= i < r ==> (#[trigger] before.col_of[i]) < m.columns,
        forall|c: int|
            0 <= c < m.columns ==> (if before.sel_cols[c] {
                #[trigger] pos[c] == old_pos[c] && pos[c] >= nrem
            } else {
                pos[c] < nrem
            }),
    ensures
        path_inv(s, m, r, pos),
{
    assert forall|c: int| 0 <= c < m.columns && #[trigger] s.path_cost[c] != i64::MAX implies {
        let p = s.pred[c] as int;
        &&& 0 <= p < m.rows
        &&& s.sel_rows[p]
        &&& s.path_cost[c] == dist(s, r, p) + m.cost(p, c) - s.dual_row[p] - s.dual_col[c]
        &&& p != r ==> pos[s.col_of[p] as int] > pos[c]
        &&& 0 <= s.path_cost[c]
    } by {
        let p = s.pred[c] as int;
        if !before.sel_cols[c] && reduced(m, before, cur, old_min, c) < before.path_cost[c] {
            assert(p == cur);
        } else {
            assert(before.path_cost[c] != i64::MAX);
            assert(p == before.pred[c]);
            assert(before.sel_rows[p]);
        }
        if p != r {
            let cp = before.col_of[p] as int;
            assert(cp < m.columns);
            assert(before.sel_cols[cp]);
            assert(pos[cp] == old_pos[cp] && pos[cp] >= nrem);
            assert(s.path_cost[cp] == before.path_cost[cp]);
        }
    }
}

/// After a round the newly selected column is reached at `lowest`, which
/// splits selected from remaining columns.
proof fn lemma_round_split(
    before: LsapState,
    s: LsapState,
    m: Costs,
    cur: int,
    j: int,
    old_min: int,
    lowest: int,
)
    requires
        round_frame(before, s, m, cur, j),
        split_inv(before, m, old_min),
        relaxed(before, s, m, cur, old_min, lowest),
        s.path_cost[j] == lowest,
    ensures
        split_inv(s, m, lowest),
        old_min <= lowest,
{
    assert(!before.sel_cols[j]);
    assert forall|c: int| 0 <= c < m.columns implies (if #[trigger] s.sel_cols[c] {
        s.path_cost[c] <= lowest
    } else {
        s.path_cost[c] >= lowest
    }) by {
        if c != j {
            if before.sel_cols[c] {
                assert(before.path_cost[c] <= old_min);
            }
        }
    }
}

/// While the row being matched is selected, a free column is reached at no
/// more than its plain cost.
proof fn lemma_free_column_cost(
    s: LsapState,
    m: Costs,
    r: int,
    free: int,
    bound: int,
)
    requires
        m.wf(),
        m.costs_bounded(),
        shaped(s, m),
        priced(s, m, r, bound),
        dist_inv(s, m, r),
        0 <= r < m.rows,
        0 <= free < m.columns,
        s.row_of[free] == UNASSIGNED,
        s.sel_rows[r],
    ensures
        s.path_cost[free] <= m.cost_limit(),
{
    lemma_cell_index(m.rows as int, m.columns as int, r, free);
    assert(s.dual_col[free] == 0);
    assert(s.dual_row[r] == 0);
    assert(m.cost(r, free) <= m.cost_limit());
    assert(s.path_cost[free] <= dist(s, r, r) + m.cost(r, free) - s.dual_row[r]
        - s.dual_col[free]);
}

/// How a round ends: at a free column, or with the row of the selected
/// column as the next row to scan.
proof fn lemma_round_end(
    before: LsapState,
    s: LsapState,
    m: Costs,
    r: int,
    cur: int,
    j: int,
    old_min: int,
    lowest: int,
)
    requires
        0 <= r < m.rows,
        matched(before, m, r),
        round_frame(before, s, m, cur, j),
        matched(before, m, r),
        rows_inv(before, m, r),
        pending(before, m, r, cur, old_min),
        s.path_cost[j] == lowest,
    ensures
        s.row_of[j] == UNASSIGNED ==> arrived(s, m, r, j, lowest),
        s.row_of[j] != UNASSIGNED ==> pending(s, m, r, s.row_of[j] as int, lowest),
{
    lemma_round_rows(before, s, m, r, cur, j, old_min);
    if s.row_of[j] == UNASSIGNED {
        assert forall|c: int|
            0 <= c < m.columns && #[trigger] s.sel_cols[c] && c != j implies s.row_of[c]
            != UNASSIGNED && s.sel_rows[s.row_of[c] as int] by {
            assert(before.sel_cols[c]);
        }
    } else {
        let nxt = s.row_of[j] as int;
        assert(before.row_of[j] == nxt);
        assert(nxt < r && before.col_of[nxt] == j);
        if s.sel_rows[nxt] {
            assert(before.sel_cols[s.col_of[nxt] as int]);
        }
        assert forall|c: int| 0 <= c < m.columns && #[trigger] s.sel_cols[c] implies s.row_of[c]
            != UNASSIGNED && (s.sel_rows[s.row_of[c] as int] || s.row_of[c] == nxt) by {
            if c != j {
                assert(before.sel_cols[c]);
            }
        }
    }
}

/// What holds at the start of a round of the search, before `cur` is scanned.
spec fn pending(
    s: LsapState,
    m: Costs,
    r: int,
    cur: int,
    min_val: int,
) -> bool {
    &&& 0 <= cur < m.rows
    &&& !s.sel_rows[cur]
    &&& min_val == dist(s, r, cur)
    &&& cur != r ==> cur < r && s.sel_cols[s.col_of[cur] as int] && s.sel_rows[r]
    &&& forall|j: int|
        0 <= j < m.columns && #[trigger] s.sel_cols[j] ==> s.row_of[j] != UNASSIGNED && (
        s.sel_rows[s.row_of[j] as int] || s.row_of[j] == cur)
}

/// What holds when the search has reached the free column `sink`.
spec fn arrived(s: LsapState, m: Costs, r: int, sink: int, min_val: int) -> bool {
    &&& 0 <= sink < m.columns
    &&& s.sel_cols[sink]
    &&& s.sel_rows[r]
    &&& s.row_of[sink] == UNASSIGNED
    &&& s.path_cost[sink] == min_val
    &&& forall|j: int|
        0 <= j < m.columns && #[trigger] s.sel_cols[j] && j != sink ==> s.row_of[j] != UNASSIGNED
            && s.sel_rows[s.row_of[j] as int]
}

/// The arrays at the start of a search: nothing selected, no path known.
pub open spec fn reset_model(s: LsapState) -> LsapState {
    LsapState {
        remaining: Seq::new(s.remaining.len(), |p: int| p as usize),
        sel_rows: Seq::new(s.sel_rows.len(), |i: int| false),
        sel_cols: Seq::new(s.sel_cols.len(), |j: int| false),
        path_cost: Seq::new(s.path_cost.len(), |j: int| i64::MAX),
        ..s
    }
}

/// The search from `cur`, reached at cost `min_val`, with `nrem` columns
/// remaining: the arrays at its end, the free column it reaches and the cost
/// of the path to it; `None` where no column can be reached.
pub open spec fn search_model(
    m: Costs,
    s: LsapState,
    cur: usize,
    min_val: i64,
    nrem: nat,
) -> Option<(LsapState, usize, i64)>
    decreases nrem,
{
    let marked = LsapState { sel_rows: s.sel_rows.update(cur as int, true), ..s };
    let sc = scan_model(m, marked, cur, min_val, nrem);
    if nrem == 0 || sc.lowest == i64::MAX {
        None
    } else {
        let j = s.remaining[sc.index as int];
        let last = (nrem - 1) as nat;
        let next = LsapState {
            path_cost: sc.path_cost,
            pred: sc.pred,
            sel_cols: s.sel_cols.update(j as int, true),
            remaining: s.remaining.update(sc.index as int, s.remaining[last as int]).update(
                last as int,
                j,
            ),
            ..marked
        };
        if s.row_of[j as int] == UNASSIGNED {
            Some((next, j, sc.lowest))
        } else {
            search_model(m, next, s.row_of[j as int], sc.lowest, last)
        }
    }
}

/// The dual values after the path to the sink has been priced in: every
/// selected row gains what it is short of `min_value`, every selected
/// column loses it.
pub open spec fn duals_model(s: LsapState, r: usize, min_value: i64) -> LsapState {
    LsapState {
        dual_row: Seq::new(
            s.dual_row.len(),
            |i: int|
                if i == r {
                    (s.dual_row[i] + min_value) as i64
                } else if s.sel_rows[i] {
                    (s.dual_row[i] + (min_value - s.path_cost[s.col_of[i] as int])) as i64
                } else {
                    s.dual_row[i]
                },
        ),
        dual_col: Seq::new(
            s.dual_col.len(),
            |j: int|
                if s.sel_cols[j] {
                    (s.dual_col[j] - (min_value - s.path_cost[j])) as i64
                } else {
                    s.dual_col[j]
                },
        ),
        ..s
    }
}

/// The pair of `i` and `j` costs exactly the sum of its dual values.
spec fn tight(s: LsapState, m: Costs, i: int, j: int) -> bool {
    s.dual_row[i] + s.dual_col[j] == m.cost(i, j)
}

/// What holds once the dual values are updated and before the matching is
/// flipped along the path.
spec fn repriced(
    s: LsapState,
    m: Costs,
    r: int,
    sink: int,
    bound: int,
    pos: Seq<int>,
) -> bool {
    &&& m.wf()
    &&& m.costs_bounded()
    &&& m.rows <= m.columns
    &&& shaped(s, m)
    &&& 0 <= r < m.rows
    &&& 0 <= bound
    &&& matched(s, m, r)
    &&& free_columns(s.row_of) == m.columns - r
    &&& feasible(s, m)
    &&& forall|i: int| 0 <= i < r ==> tight(s, m, i, #[trigger] s.col_of[i] as int)
    &&& forall|j: int|
        0 <= j < m.columns ==> -bound <= #[trigger] s.dual_col[j] <= 0 && (s.row_of[j]
            == UNASSIGNED ==> s.dual_col[j] == 0)
    &&& forall|i: int|
        0 <= i < m.rows ==> 0 <= #[trigger] s.dual_row[i] <= bound && (i > r ==> s.dual_row[i]
            == 0)
    &&& pos.len() == m.columns
    &&& forall|j: int| 0 <= j < m.columns ==> 0 <= #[trigger] pos[j] < m.columns
    &&& 0 <= sink < m.columns
    &&& s.sel_cols[sink]
    &&& s.row_of[sink] == UNASSIGNED
    &&& forall|j: int|
        0 <= j < m.columns && #[trigger] s.sel_cols[j] ==> {
            let p = s.pred[j] as int;
            &&& 0 <= p <= r
            &&& tight(s, m, p, j)
            &&& j != sink ==> s.row_of[j] != UNASSIGNED
            &&& p != r ==> s.sel_cols[s.col_of[p] as int] && pos[s.col_of[p] as int] > pos[j]
        }
}

/// The dual values that [`duals_model`] gives keep every promise about dual
/// values, and make every step of the path tight.
proof fn lemma_repriced(
    before: LsapState,
    m: Costs,
    r: int,
    sink: int,
    min_value: int,
    nrem: int,
    pos: Seq<int>,
    bound: int,
)
    requires
        between_rows(before, m, r, bound),
        r < m.rows,
        bound + 2 * m.cost_limit() <= i64::MAX,
        search_inv(before, m, r, min_value, nrem, pos),
        arrived(before, m, r, sink, min_value),
    ensures
        repriced(
            duals_model(before, r as usize, min_value as i64),
            m,
            r,
            sink,
            bound + m.cost_limit(),
            pos,
        ),
{
    let s = duals_model(before, r as usize, min_value as i64);
    let limit = m.cost_limit();
    // What each row gains and each column loses.
    assert forall|i: int| 0 <= i < m.rows implies #[trigger] s.dual_row[i] == before.dual_row[i]
        + (if before.sel_rows[i] {
        min_value - dist(before, r, i)
    } else {
        0
    }) && (before.sel_rows[i] ==> 0 <= dist(before, r, i) <= min_value) by {
        assert(0 <= before.dual_row[i] <= bound);
        if i != r && before.sel_rows[i] {
            let c = before.col_of[i] as int;
            assert(before.sel_cols[c]);
            assert(before.path_cost[c] <= min_value);
            assert(before.path_cost[c] != i64::MAX);
        }
    }
    assert forall|j: int| 0 <= j < m.columns implies #[trigger] s.dual_col[j]
        == before.dual_col[j] - (if before.sel_cols[j] {
        min_value - before.path_cost[j]
    } else {
        0
    }) && (before.sel_cols[j] ==> 0 <= before.path_cost[j] <= min_value) by {
        assert(-bound <= before.dual_col[j] <= 0);
        if before.sel_cols[j] {
            assert(before.path_cost[j] <= min_value);
            assert(before.path_cost[j] != i64::MAX);
        }
    }
    assert forall|i: int, j: int| 0 <= i < m.rows && 0 <= j < m.columns implies s.dual_row[i]
        + s.dual_col[j] <= #[trigger] m.cost(i, j) by {
        assert(before.dual_row[i] + before.dual_col[j] <= m.cost(i, j));
        assert(s.dual_row[i] >= before.dual_row[i]);
        assert(s.dual_col[j] <= before.dual_col[j]);
        if before.sel_rows[i] {
            assert(before.path_cost[j] <= dist(before, r, i) + m.cost(i, j) - before.dual_row[i]
                - before.dual_col[j]);
            assert(before.sel_cols[j] || before.path_cost[j] >= min_value);
        }
    }
    assert forall|i: int| 0 <= i < r implies tight(s, m, i, #[trigger] s.col_of[i] as int) by {
        let c = before.col_of[i] as int;
        assert(before.dual_row[i] + before.dual_col[c] == m.cost(i, c));
        if before.sel_cols[c] {
            assert(before.row_of[c] == i);
            assert(c != sink);
            assert(before.sel_rows[i]);
        }
    }
    assert forall|j: int| 0 <= j < m.columns implies -(bound + limit) <= #[trigger] s.dual_col[j]
        <= 0 && (s.row_of[j] == UNASSIGNED ==> s.dual_col[j] == 0) by {
        assert(-bound <= before.dual_col[j] <= 0);
        if before.sel_cols[j] && before.row_of[j] == UNASSIGNED {
            assert(j == sink);
        }
    }
    assert forall|i: int| 0 <= i < m.rows implies 0 <= #[trigger] s.dual_row[i] <= bound + limit
        && (i > r ==> s.dual_row[i] == 0) by {
        assert(0 <= before.dual_row[i] <= bound);
        if i > r {
            assert(!before.sel_rows[i]);
        }
    }
    assert forall|j: int| 0 <= j < m.columns implies 0 <= #[trigger] pos[j] < m.columns by {}
    assert forall|j: int| 0 <= j < m.columns && #[trigger] s.sel_cols[j] implies {
        let p = s.pred[j] as int;
        &&& 0 <= p <= r
        &&& tight(s, m, p, j)
        &&& j != sink ==> s.row_of[j] != UNASSIGNED
        &&& p != r ==> s.sel_cols[s.col_of[p] as int] && pos[s.col_of[p] as int] > pos[j]
    } by {
        let p = before.pred[j] as int;
        assert(before.path_cost[j] <= min_value);
        assert(before.path_cost[j] != i64::MAX);
        assert(before.sel_rows[p]);
    }
}

/// The matching after it has been flipped along the path that ends in
/// `column`: each column on the path takes its predecessor row, which hands
/// on the column it had, until row `r` is reached. `fuel` bounds the steps.
pub open spec fn augment_model(s: LsapState, r: usize, column: usize, fuel: nat) -> LsapState
    decreases fuel,
{
    if fuel == 0 {
        s
    } else {
        let row = s.pred[column as int];
        let handed_on = s.col_of[row as int];
        let t = LsapState {
            row_of: s.row_of.update(column as int, row),
            col_of: s.col_of.update(row as int, column),
            ..s
        };
        if row == r {
            t
        } else {
            augment_model(t, r, handed_on, (fuel - 1) as nat)
        }
    }
}

/// What holds while the matching is flipped along the path, with `column`
/// the next column to be given its predecessor row.
spec fn walking(
    orig: LsapState,
    s: LsapState,
    m: Costs,
    r: int,
    sink: int,
    column: int,
    pos: Seq<int>,
) -> bool {
    &&& s == (LsapState { col_of: s.col_of, row_of: s.row_of, ..orig })
    &&& s.col_of.len() == m.rows
    &&& s.row_of.len() == m.columns
    &&& 0 <= column < m.columns
    &&& orig.sel_cols[column]
    &&& s.row_of[column] == orig.row_of[column]
    &&& forall|i: int|
        0 <= i < r ==> (#[trigger] s.col_of[i]) < m.columns && s.row_of[s.col_of[i] as int] == i
            && s.col_of[i] != column && tight(s, m, i, s.col_of[i] as int)
    &&& forall|i: int| r <= i < m.rows ==> #[trigger] s.col_of[i] == UNASSIGNED
    &&& forall|j: int|
        0 <= j < m.columns && j != column ==> #[trigger] s.row_of[j] == UNASSIGNED || (s.row_of[j]
            < r && s.col_of[s.row_of[j] as int] == j)
    &&& forall|j: int|
        0 <= j < m.columns && #[trigger] s.row_of[j] == UNASSIGNED ==> orig.row_of[j]
            == UNASSIGNED
    &&& forall|i: int|
        0 <= i < r && #[trigger] s.col_of[i] != orig.col_of[i] ==> pos[orig.col_of[i] as int]
            <= pos[column]
    &&& forall|j: int|
        0 <= j < m.columns && #[trigger] s.row_of[j] != orig.row_of[j] ==> pos[j] < pos[column]
    &&& free_columns(s.row_of) == m.columns - r - (if column == sink {
        0int
    } else {
        1int
    })
}

/// One step along the path keeps what holds while walking, or, at row `r`,
/// completes the matching of the first `r + 1` rows.
proof fn lemma_walk_step(
    orig: LsapState,
    s: LsapState,
    m: Costs,
    r: int,
    sink: int,
    column: int,
    pos: Seq<int>,
    bound: int,
) -> (t: LsapState)
    requires
        repriced(orig, m, r, sink, bound, pos),
        walking(orig, s, m, r, sink, column, pos),
    ensures
        ({
            let row = s.pred[column] as int;
            &&& 0 <= row <= r
            &&& t == (LsapState {
                row_of: s.row_of.update(column, row as usize),
                col_of: s.col_of.update(row, column as usize),
                ..s
            })
            &&& row == r ==> between_rows(t, m, r + 1, bound)
            &&& row != r ==> 0 <= s.col_of[row] < m.columns && pos[s.col_of[row] as int]
                > pos[column] && walking(orig, t, m, r, sink, s.col_of[row] as int, pos)
        }),
{
    let row = s.pred[column] as int;
    let t = LsapState {
        row_of: s.row_of.update(column, row as usize),
        col_of: s.col_of.update(row, column as usize),
        ..s
    };
    assert(orig.sel_cols[column]);
    assert(0 <= row <= r && tight(orig, m, row, column));
    assert(row as usize != UNASSIGNED);
    lemma_free_columns_update(s.row_of, column, row as usize);
    if column != sink {
        assert(orig.row_of[column] != UNASSIGNED);
    }
    assert(free_columns(t.row_of) == m.columns - r - 1);
    if row == r {
        assert(s.col_of[r] == UNASSIGNED);
        assert forall|i: int| 0 <= i < r + 1 implies (#[trigger] t.col_of[i]) < m.columns
            && t.row_of[t.col_of[i] as int] == i by {
            if i != r {
                assert(s.col_of[i] != column);
            }
        }
        assert forall|j: int| 0 <= j < m.columns implies #[trigger] t.row_of[j] == UNASSIGNED || (
        t.row_of[j] < r + 1 && t.col_of[t.row_of[j] as int] == j) by {
            if j != column {
                assert(s.row_of[j] == UNASSIGNED || (s.row_of[j] < r && s.col_of[s.row_of[j] as int]
                    == j));
            }
        }
        assert(matched(t, m, r + 1));
        assert forall|i: int| 0 <= i < r + 1 implies (#[trigger] t.dual_row[i])
            + t.dual_col[t.col_of[i] as int] == m.cost(i, t.col_of[i] as int) by {
            if i != r {
                assert(tight(s, m, i, s.col_of[i] as int));
            }
        }
        assert forall|j: int| 0 <= j < m.columns implies -bound <= #[trigger] t.dual_col[j] <= 0
            && (t.row_of[j] == UNASSIGNED ==> t.dual_col[j] == 0) by {
            assert(-bound <= orig.dual_col[j] <= 0);
            if t.row_of[j] == UNASSIGNED {
                assert(s.row_of[j] == UNASSIGNED);
            }
        }
        assert forall|i: int| 0 <= i < m.rows implies 0 <= #[trigger] t.dual_row[i] <= bound && (i
            >= r + 1 ==> t.dual_row[i] == 0) by {
            assert(0 <= orig.dual_row[i] <= bound);
        }
        assert(priced(t, m, r + 1, bound));
    } else {
        let handed_on = s.col_of[row] as int;
        let first = orig.col_of[row] as int;
        assert(orig.sel_cols[first] && pos[first] > pos[column]);
        assert(s.col_of[row] == orig.col_of[row]);
        assert(handed_on == first);
        assert(s.row_of[handed_on] == row);
        assert(orig.row_of[first] == row);
        assert forall|i: int| 0 <= i < r implies (#[trigger] t.col_of[i]) < m.columns
            && t.row_of[t.col_of[i] as int] == i && t.col_of[i] != handed_on && tight(
            t,
            m,
            i,
            t.col_of[i] as int,
        ) by {
            if i != row {
                assert(s.col_of[i] != column);
                assert(s.row_of[s.col_of[i] as int] == i);
                assert(tight(s, m, i, s.col_of[i] as int));
            }
        }
        assert forall|j: int| 0 <= j < m.columns && j != handed_on implies #[trigger] t.row_of[j]
            == UNASSIGNED || (t.row_of[j] < r && t.col_of[t.row_of[j] as int] == j) by {
            if j != column {
                assert(s.row_of[j] == UNASSIGNED || (s.row_of[j] < r && s.col_of[s.row_of[j] as int]
                    == j));
            }
        }
        assert forall|j: int| 0 <= j < m.columns && #[trigger] t.row_of[j]
            == UNASSIGNED implies orig.row_of[j] == UNASSIGNED by {
            assert(s.row_of[j] == UNASSIGNED);
        }
        assert forall|i: int| 0 <= i < r && #[trigger] t.col_of[i] != orig.col_of[i] implies pos[orig.col_of[i] as int]
            <= pos[handed_on] by {
            if i != row {
                assert(s.col_of[i] != orig.col_of[i]);
            }
        }
        assert forall|j: int| 0 <= j < m.columns && #[trigger] t.row_of[j]
            != orig.row_of[j] implies pos[j] < pos[handed_on] by {
            if j != column {
                assert(s.row_of[j] != orig.row_of[j]);
            }
        }
        if handed_on == sink {
            assert(orig.row_of[sink] == UNASSIGNED);
        }
        assert(t.row_of[handed_on] == orig.row_of[handed_on]);
        assert(walking(orig, t, m, r, sink, handed_on, pos));
    }
    t
}

/// The arrays before any row is matched.
pub open spec fn initial_state(m: Costs) -> LsapState {
    LsapState {
        dual_row: Seq::new(m.rows as nat, |i: int| 0i64),
        dual_col: Seq::new(m.columns as nat, |j: int| 0i64),
        path_cost: Seq::new(m.columns as nat, |j: int| i64::MAX),
        pred: Seq::new(m.columns as nat, |j: int| UNASSIGNED),
        col_of: Seq::new(m.rows as nat, |i: int| UNASSIGNED),
        row_of: Seq::new(m.columns as nat, |j: int| UNASSIGNED),
        sel_rows: Seq::new(m.rows as nat, |i: int| false),
        sel_cols: Seq::new(m.columns as nat, |j: int| false),
        remaining: Seq::new(m.columns as nat, |j: int| j as usize),
    }
}

/// The arrays after row `r` has been matched: search, new dual values,
/// flipped matching.
pub open spec fn row_model(m: Costs, s: LsapState, r: usize) -> Option<LsapState> {
    match search_model(m, reset_model(s), r, 0, m.columns as nat) {
        None => None,
        Some((found, sink, min_val)) => Some(
            augment_model(duals_model(found, r, min_val), r, sink, m.columns as nat),
        ),
    }
}

/// The arrays after the rows from `r` on have been matched in turn.
pub open spec fn rows_model(m: Costs, s: LsapState, r: nat) -> Option<LsapState>
    decreases m.rows - r,
{
    if r >= m.rows {
        Some(s)
    } else {
        match row_model(m, s, r as usize) {
            None => None,
            Some(t) => rows_model(m, t, r + 1),
        }
    }
}

/// The assignment that the method reaches on `m`: the column of each row.
///
/// The method breaks ties in one fixed way, so this is a function of the
/// matrix alone.
pub open spec fn solution(m: Costs) -> Seq<usize> {
    match rows_model(m, initial_state(m), 0) {
        Some(s) => s.col_of,
        None => Seq::empty(),
    }
}

/// `i64::MAX / (rows + 1)` times `rows + 1` is at most `i64::MAX`.
proof fn lemma_cost_limit(m: Costs, r: int)
    requires
        0 <= r < m.rows,
    ensures
        0 <= m.cost_limit(),
        r * m.cost_limit() + 2 * m.cost_limit() <= i64::MAX,
        (r + 1) * m.cost_limit() == r * m.cost_limit() + m.cost_limit(),
        0 <= r * m.cost_limit(),
{
    let limit = m.cost_limit();
    let n = m.rows as int + 1;
    assert(limit * n <= i64::MAX && limit >= 0) by (nonlinear_arith)
        requires
            limit == i64::MAX as int / n,
            n >= 1,
    ;
    assert(r * limit + 2 * limit <= limit * n) by (nonlinear_arith)
        requires
            r + 2 <= n,
            limit >= 0,
    ;
    assert((r + 1) * limit == r * limit + limit) by (nonlinear_arith);
    assert(0 <= r * limit) by (nonlinear_arith)
        requires
            0 <= r,
            0 <= limit,
    ;
}

/// The sum of the first `n` entries of `u`.
spec fn sum_rows(u: Seq<i64>, n: nat) -> int
    decreases n,
{
    if n == 0 {
        0
    } else {
        sum_rows(u, (n - 1) as nat) + u[n - 1]
    }
}

/// No matching costs less than its rows' and columns' dual values together.
pub open spec fn optimal(m: Costs, a: Seq<usize>) -> bool {
    forall|b: Seq<usize>| is_matching(m, b) ==> total_cost(m, a) <= #[trigger] total_cost(m, b)
}

/// With dual values that never exceed a cost, an assignment costs at least
/// the dual values of its rows and of the columns it names, and exactly
/// that much where every pair it makes is tight.
proof fn lemma_cost_bounds(s: LsapState, m: Costs, a: Seq<usize>)
    requires
        m.wf(),
        shaped(s, m),
        feasible(s, m),
        a.len() <= m.rows,
        in_range(a, m.columns as int),
    ensures
        total_cost(m, a) >= sum_rows(s.dual_row, a.len()) + picked(s.dual_col, a),
        (forall|i: int| 0 <= i < a.len() ==> tight(s, m, i, #[trigger] a[i] as int)) ==> total_cost(
            m,
            a,
        ) == sum_rows(s.dual_row, a.len()) + picked(s.dual_col, a),
    decreases a.len(),
{
    if a.len() > 0 {
        let front = a.drop_last();
        let i = a.len() - 1;
        let j = a.last() as int;
        assert(a[i] == j);
        assert(j % (m.columns as int) == j) by {
            vstd::arithmetic::div_mod::lemma_small_mod(j as nat, m.columns as nat);
        }
        assert forall|k: int| 0 <= k < front.len() implies 0 <= #[trigger] front[k]
            < m.columns by {
            assert(front[k] == a[k]);
        }
        lemma_cost_bounds(s, m, front);
        assert(s.dual_row[i] + s.dual_col[j] <= m.cost(i, j));
        if forall|i: int| 0 <= i < a.len() ==> tight(s, m, i, #[trigger] a[i] as int) {
            assert forall|k: int| 0 <= k < front.len() implies tight(
                s,
                m,
                k,
                #[trigger] front[k] as int,
            ) by {
                assert(front[k] == a[k]);
                assert(tight(s, m, k, a[k] as int));
            }
            assert(tight(s, m, i, a[i] as int));
        }
    }
}

/// Once every row is matched, the matching is the cheapest there is.
proof fn lemma_solution_optimal(s: LsapState, m: Costs, bound: int)
    requires
        between_rows(s, m, m.rows as int, bound),
    ensures
        is_matching(m, s.col_of),
        optimal(m, s.col_of),
{
    let a = s.col_of;
    let v = s.dual_col;
    assert(in_range(a, m.columns as int));
    assert(injective(a)) by {
        assert forall|i: int, j: int|
            0 <= i < a.len() && 0 <= j < a.len() && i != j implies a[i] != a[j] by {
            assert(s.row_of[a[i] as int] == i);
            assert(s.row_of[a[j] as int] == j);
        }
    }
    assert forall|i: int| 0 <= i < a.len() implies tight(s, m, i, #[trigger] a[i] as int) by {
        assert(s.dual_row[i] + s.dual_col[s.col_of[i] as int] == m.cost(i, s.col_of[i] as int));
    }
    lemma_cost_bounds(s, m, a);
    lemma_picked_is_masked_sum(v, a);
    assert(masked(v, a) =~= v) by {
        assert forall|j: int| 0 <= j < v.len() implies masked(v, a)[j] == v[j] by {
            if !(exists|i: int| 0 <= i < a.len() && a[i] == j) {
                if s.row_of[j] != UNASSIGNED {
                    let i = s.row_of[j] as int;
                    assert(a[i] == j);
                }
                assert(s.dual_col[j] == 0);
            }
        }
    }
    assert forall|b: Seq<usize>| is_matching(m, b) implies total_cost(m, a) <= #[trigger] total_cost(
        m,
        b,
    ) by {
        lemma_cost_bounds(s, m, b);
        lemma_picked_is_masked_sum(v, b);
        assert forall|j: int| 0 <= j < v.len() implies masked(v, b)[j] >= v[j] by {
            assert(s.dual_col[j] <= 0);
        }
        lemma_seq_sum_le(masked(v, b), v);
    }
}

impl<'a> LsapSolver<'a> {
    /// Sets up the solver for `distance_matrix` with nothing matched.
    fn new(distance_matrix: &'a DistanceMatrix) -> (solver: Self)
        requires
            distance_matrix.wf(),
            distance_matrix.costs_bounded(),
            distance_matrix.rows <= distance_matrix.columns,
        ensures
            solver.distance_matrix == distance_matrix,
            solver@ == initial_state(distance_matrix@),
            between_rows(solver@, distance_matrix@, 0, 0),
    {
        let num_rows = distance_matrix.rows;
        let num_columns = distance_matrix.columns;
        let mut remaining_columns: Vec<usize> = Vec::new();
        let mut j: usize = 0;
        while j < num_columns
            invariant
                j <= num_columns,
                remaining_columns.len() == j,
                forall|p: int| 0 <= p < j ==> #[trigger] remaining_columns@[p] == p,
            decreases num_columns - j,
        {
            remaining_columns.push(j);
            j += 1;
        }
        let solver = Self {
            distance_matrix,
            dual_row_values: vec![0; num_rows],
            dual_column_values: vec![0; num_columns],
            shortest_path_costs: vec![i64::MAX; num_columns],
            augmentation_path: vec![UNASSIGNED; num_columns],
            column_assigned_to_row: vec![UNASSIGNED; num_rows],
            row_assigned_to_column: vec![UNASSIGNED; num_columns],
            selected_rows: vec![false; num_rows],
            selected_columns: vec![false; num_columns],
            remaining_columns,
        };
        proof {
            let goal = initial_state(distance_matrix@);
            let s = solver@;
            assert(s.dual_row =~= goal.dual_row);
            assert(s.dual_col =~= goal.dual_col);
            assert(s.path_cost =~= goal.path_cost);
            assert(s.pred =~= goal.pred);
            assert(s.col_of =~= goal.col_of);
            assert(s.row_of =~= goal.row_of);
            assert(s.sel_rows =~= goal.sel_rows);
            assert(s.sel_cols =~= goal.sel_cols);
            assert(s.remaining =~= goal.remaining);
            lemma_free_columns_all(s.row_of);
            let m = distance_matrix@;
            assert forall|i: int, j: int|
                0 <= i < m.rows && 0 <= j < m.columns implies s.dual_row[i] + s.dual_col[j]
                <= #[trigger] m.cost(i, j) by {
                lemma_cell_index(
                    distance_matrix.rows as int,
                    distance_matrix.columns as int,
                    i,
                    j,
                );
            }
        }
        solver
    }

    /// Matches the rows one after the other and returns the column of each.
    fn solve(&mut self) -> (res: Result<Vec<usize>, HungarianError>)
        requires
            between_rows(old(self)@, old(self).distance_matrix@, 0, 0),
        ensures
            final(self).distance_matrix@ == old(self).distance_matrix@,
            res matches Ok(assignment) && {
                let m = old(self).distance_matrix@;
                &&& assignment@ == final(self)@.col_of
                &&& rows_model(m, old(self)@, 0) == Some(final(self)@)
                &&& between_rows(final(self)@, m, m.rows as int, m.rows * m.cost_limit())
            },
    {
        let nr = self.distance_matrix.rows;
        let ghost m = self.distance_matrix@;
        let ghost target = rows_model(m, self@, 0);
        let ghost mut bound: int = 0;
        let mut current_row: usize = 0;
        while current_row < nr
            invariant
                self.distance_matrix@ == m,
                nr == m.rows,
                current_row <= nr,
                bound == current_row * m.cost_limit(),
                between_rows(self@, m, current_row as int, bound),
                target == rows_model(m, self@, current_row as nat),
            decreases nr - current_row,
        {
            proof {
                lemma_cost_limit(m, current_row as int);
            }
            let (found, Ghost(order)) = self.find_augmenting_path(current_row, Ghost(bound));
            let (sink_column, min_value) = match found {
                Ok(pair) => pair,
                Err(e) => {
                    return Err(e);
                },
            };
            self.update_dual_variables(
                current_row,
                min_value,
                Ghost(sink_column as int),
                Ghost(order.1),
                Ghost(order.0),
                Ghost(bound),
            );
            proof {
                bound = bound + m.cost_limit();
            }
            self.augment_solution(current_row, sink_column, Ghost(order.0), Ghost(bound));
            current_row += 1;
        }
        let assignment = self.column_assigned_to_row.clone();
        proof {
            assert(assignment@ =~= self@.col_of);
        }
        Ok(assignment)
    }

    /// Looks at every remaining column from `current_row`: lowers its path
    /// cost where the way through `current_row` is shorter, and finds the
    /// remaining column with the lowest path cost, a free one where several
    /// are lowest.
    fn scan_row(
        &mut self,
        current_row: usize,
        min_val: i64,
        num_remaining: usize,
        Ghost(pos): Ghost<Seq<int>>,
        Ghost(bound): Ghost<int>,
    ) -> (found: (i64, usize))
        requires
            scannable(
                old(self)@,
                old(self).distance_matrix@,
                pos,
                current_row as int,
                min_val as int,
                bound,
            ),
            num_remaining <= old(self).distance_matrix@.columns,
        ensures
            final(self).distance_matrix@ == old(self).distance_matrix@,
            final(self)@ == (LsapState {
                path_cost: final(self)@.path_cost,
                pred: final(self)@.pred,
                ..old(self)@
            }),
            ({
                let sc = scan_model(
                    old(self).distance_matrix@,
                    old(self)@,
                    current_row,
                    min_val,
                    num_remaining as nat,
                );
                &&& final(self)@.path_cost == sc.path_cost
                &&& final(self)@.pred == sc.pred
                &&& found == (sc.lowest, sc.index)
                &&& scanned(
                    old(self)@,
                    old(self).distance_matrix@,
                    current_row as int,
                    min_val as int,
                    num_remaining as int,
                    sc,
                )
            }),
    {
        let nc = self.distance_matrix.columns;
        let ghost m = self.distance_matrix@;
        let ghost before = self@;
        let mut index = usize::MAX;
        let mut lowest = i64::MAX;
        let mut it: usize = 0;
        while it < num_remaining
            invariant
                scannable(before, m, pos, current_row as int, min_val as int, bound),
                self.distance_matrix@ == m,
                nc == m.columns,
                it <= num_remaining <= nc,
                self@ == (LsapState { path_cost: self@.path_cost, pred: self@.pred, ..before }),
                ({
                    let sc = scan_model(m, before, current_row, min_val, it as nat);
                    &&& self@.path_cost == sc.path_cost
                    &&& self@.pred == sc.pred
                    &&& lowest == sc.lowest
                    &&& index == sc.index
                    &&& scanned(before, m, current_row as int, min_val as int, it as int, sc)
                }),
            decreases num_remaining - it,
        {
            let ghost prev = scan_model(m, before, current_row, min_val, it as nat);
            let j = self.remaining_columns[it];
            proof {
                lemma_cell_index(m.rows as int, m.columns as int, current_row as int, j as int);
                assert(self.distance_matrix.data.len() == m.data.len());
                assert(before.remaining[it as int] == j);
                assert(pos[j as int] == it);
                assert(m.cost(current_row as int, j as int) <= m.cost_limit());
                assert(-bound <= before.dual_col[j as int] <= 0);
            }
            let r: i64 = min_val + self.distance_matrix.data[current_row * nc + j]
                - self.dual_row_values[current_row] - self.dual_column_values[j];
            if r < self.shortest_path_costs[j] {
                self.augmentation_path[j] = current_row;
                self.shortest_path_costs[j] = r;
            }
            if self.shortest_path_costs[j] < lowest || (self.shortest_path_costs[j] == lowest
                && self.row_assigned_to_column[j] == usize::MAX) {
                lowest = self.shortest_path_costs[j];
                index = it;
            }
            proof {
                let next = scan_model(m, before, current_row, min_val, (it + 1) as nat);
                assert(next == scan_visit(m, before, current_row, min_val, prev, it as int));
                assert(r == reduced(m, before, current_row as int, min_val as int, j as int));
                assert(self@.path_cost =~= next.path_cost);
                assert(self@.pred =~= next.pred);
                assert forall|p: int| #![trigger before.remaining[p]] 0 <= p < it + 1 implies {
                    let j = before.remaining[p] as int;
                    let r = reduced(m, before, current_row as int, min_val as int, j);
                    &&& next.path_cost[j] == (if r < before.path_cost[j] {
                        r
                    } else {
                        before.path_cost[j] as int
                    })
                    &&& next.pred[j] == (if r < before.path_cost[j] {
                        current_row as int
                    } else {
                        before.pred[j] as int
                    })
                    &&& next.lowest <= next.path_cost[j]
                } by {
                    let q = before.remaining[p] as int;
                    assert(pos[q] == p);
                    if p < it {
                        assert(q != j);
                    }
                }
                assert forall|p: int| #![trigger before.remaining[p]] it + 1 <= p < m.columns implies {
                    let j = before.remaining[p] as int;
                    &&& next.path_cost[j] == before.path_cost[j]
                    &&& next.pred[j] == before.pred[j]
                } by {
                    let q = before.remaining[p] as int;
                    assert(pos[q] == p);
                    assert(q != j);
                }
            }
            it += 1;
        }
        (lowest, index)
    }

    /// Forgets the last search: all columns remain, in their natural order,
    /// no row and no column is selected and no path cost is known.
    fn reset_search(&mut self)
        requires
            shaped(old(self)@, old(self).distance_matrix@),
        ensures
            final(self).distance_matrix@ == old(self).distance_matrix@,
            final(self)@ == reset_model(old(self)@),
            shaped(final(self)@, final(self).distance_matrix@),
    {
        let nc = self.distance_matrix.columns;
        let nr = self.distance_matrix.rows;
        let ghost m = self.distance_matrix@;
        let ghost before = self@;
        let mut j: usize = 0;
        while j < nc
            invariant
                self.distance_matrix@ == m,
                nc == m.columns,
                shaped(self@, m),
                j <= nc,
                self@ == (LsapState {
                    remaining: self@.remaining,
                    sel_cols: self@.sel_cols,
                    path_cost: self@.path_cost,
                    ..before
                }),
                forall|p: int| 0 <= p < j ==> #[trigger] self@.remaining[p] == p,
                forall|p: int| 0 <= p < j ==> !#[trigger] self@.sel_cols[p],
                forall|p: int| 0 <= p < j ==> #[trigger] self@.path_cost[p] == i64::MAX,
            decreases nc - j,
        {
            self.remaining_columns[j] = j;
            self.selected_columns[j] = false;
            self.shortest_path_costs[j] = i64::MAX;
            j += 1;
        }
        let ghost half = self@;
        let mut i: usize = 0;
        while i < nr
            invariant
                self.distance_matrix@ == m,
                nr == m.rows,
                shaped(self@, m),
                i <= nr,
                self@ == (LsapState { sel_rows: self@.sel_rows, ..half }),
                forall|p: int| 0 <= p < i ==> !#[trigger] self@.sel_rows[p],
            decreases nr - i,
        {
            self.selected_rows[i] = false;
            i += 1;
        }
        proof {
            let goal = reset_model(before);
            assert(self@.remaining =~= goal.remaining);
            assert(self@.sel_cols =~= goal.sel_cols);
            assert(self@.path_cost =~= goal.path_cost);
            assert(self@.sel_rows =~= goal.sel_rows);
        }
    }

    /// Searches the cheapest alternating path from `row` to a free column.
    ///
    /// Returns the free column at the end of the path and the cost of the
    /// path. The path itself is left in the predecessor array.
    fn find_augmenting_path(&mut self, row: usize, Ghost(bound): Ghost<int>) -> (res: (
        Result<(usize, i64), HungarianError>,
        Ghost<(Seq<int>, int)>,
    ))
        requires
            between_rows(old(self)@, old(self).distance_matrix@, row as int, bound),
            row < old(self).distance_matrix@.rows,
            bound + 2 * old(self).distance_matrix@.cost_limit() <= i64::MAX,
        ensures
            final(self).distance_matrix@ == old(self).distance_matrix@,
            final(self)@.dual_row == old(self)@.dual_row,
            final(self)@.dual_col == old(self)@.dual_col,
            final(self)@.col_of == old(self)@.col_of,
            final(self)@.row_of == old(self)@.row_of,
            shaped(final(self)@, final(self).distance_matrix@),
            res.0 matches Ok((sink, min_val)) && {
                let m = old(self).distance_matrix@;
                &&& search_model(m, reset_model(old(self)@), row, 0, m.columns as nat) == Some(
                    (final(self)@, sink, min_val),
                )
                &&& search_inv(final(self)@, m, row as int, min_val as int, res.1@.1, res.1@.0)
                &&& arrived(final(self)@, m, row as int, sink as int, min_val as int)
            },
    {
        let nc = self.distance_matrix.columns;
        let ghost m = self.distance_matrix@;
        let ghost start = self@;
        let ghost r = row as int;
        let ghost limit = m.cost_limit();
        let mut current_row = row;
        let mut min_val: i64 = 0;
        let mut num_remaining = nc;
        self.reset_search();
        let ghost target = search_model(m, self@, row, 0, nc as nat);
        let ghost mut pos: Seq<int> = Seq::new(nc as nat, |j: int| j);
        let ghost free = lemma_free_column_exists(start.row_of);
        proof {
            assert(limit < i64::MAX) by (nonlinear_arith)
                requires
                    limit == i64::MAX as int / (m.rows as int + 1),
                    m.rows >= 1,
            ;
            assert(limit >= 0) by (nonlinear_arith)
                requires
                    limit == i64::MAX as int / (m.rows as int + 1),
                    m.rows >= 1,
            ;
        }
        let mut sink = usize::MAX;
        while sink == usize::MAX
            invariant
                self.distance_matrix@ == m,
                nc == m.columns,
                r == row,
                limit == m.cost_limit(),
                0 <= limit < i64::MAX,
                between_rows(start, m, r, bound),
                row < m.rows,
                bound + 2 * limit <= i64::MAX,
                shaped(self@, m),
                self@.dual_row == start.dual_row,
                self@.dual_col == start.dual_col,
                self@.col_of == start.col_of,
                self@.row_of == start.row_of,
                0 <= free < nc,
                start.row_of[free] == UNASSIGNED,
                num_remaining <= nc,
                search_inv(self@, m, r, min_val as int, num_remaining as int, pos),
                sink == UNASSIGNED ==> pending(self@, m, r, current_row as int, min_val as int),
                sink != UNASSIGNED ==> arrived(self@, m, r, sink as int, min_val as int),
                target == (if sink == UNASSIGNED {
                    search_model(m, self@, current_row, min_val, num_remaining as nat)
                } else {
                    Some((self@, sink, min_val))
                }),
            decreases num_remaining + (if sink == UNASSIGNED { 1int } else { 0int }),
        {
            let ghost before = self@;
            let ghost cur = current_row as int;
            let ghost nrem = num_remaining as int;
            let ghost old_min = min_val as int;
            let ghost old_pos = pos;
            self.selected_rows[current_row] = true;
            let ghost marked = self@;
            proof {
                assert(marked == (LsapState {
                    sel_rows: before.sel_rows.update(cur, true),
                    ..before
                }));
            }
            let (lowest, index) = self.scan_row(
                current_row,
                min_val,
                num_remaining,
                Ghost(pos),
                Ghost(bound),
            );
            let ghost sc = scan_model(m, marked, current_row, min_val, num_remaining as nat);
            let ghost scan_end = self@;
            proof {
                lemma_relaxed(before, marked, scan_end, m, cur, old_min, nrem, pos, sc);
                assert(relaxed(before, scan_end, m, cur, old_min, lowest as int));
                assert(!before.sel_cols[free]);
                if cur == r {
                    lemma_cell_index(m.rows as int, m.columns as int, r, free);
                    assert(start.dual_col[free] == 0);
                    assert(start.dual_row[r] == 0);
                    assert(m.cost(r, free) <= limit);
                } else {
                    lemma_free_column_cost(before, m, r, free, bound);
                }
                assert(sc.path_cost[free] <= limit);
                assert(lowest <= limit);
            }
            if lowest == i64::MAX {
                return (Err(HungarianError::Infeasible), Ghost((pos, nrem)));
            }
            min_val = lowest;
            let j = self.remaining_columns[index];
            let row_of_j = self.row_assigned_to_column[j];
            if row_of_j == usize::MAX {
                sink = j;
            } else {
                current_row = row_of_j;
            }
            self.selected_columns[j] = true;
            num_remaining -= 1;
            let moved = self.remaining_columns[num_remaining];
            self.remaining_columns[index] = moved;
            self.remaining_columns[num_remaining] = j;
            proof {
                let s = self@;
                let jj = j as int;
                assert(s.path_cost == sc.path_cost);
                assert(s.pred == sc.pred);
                assert(s.sel_rows == marked.sel_rows);
                assert(s.sel_cols == before.sel_cols.update(jj, true));
                assert(s.remaining == before.remaining.update(
                    index as int,
                    before.remaining[nrem - 1],
                ).update(nrem - 1, j));
                let next = LsapState {
                    path_cost: sc.path_cost,
                    pred: sc.pred,
                    sel_cols: before.sel_cols.update(jj, true),
                    remaining: before.remaining.update(
                        index as int,
                        before.remaining[nrem - 1],
                    ).update(nrem - 1, j),
                    ..marked
                };
                assert(s == next);
                assert(old_pos[jj] == index);
                assert(round_frame(before, s, m, cur, jj));
                assert(relaxed(before, s, m, cur, old_min, lowest as int));
                assert(s.path_cost[jj] == lowest);
                pos = lemma_round_cols(before, s, m, cur, jj, index as int, nrem, old_pos);
                lemma_round_rows(before, s, m, r, cur, jj, old_min);
                lemma_round_dist(before, s, m, r, cur, jj, old_min, lowest as int);
                lemma_round_path(
                    before,
                    s,
                    m,
                    r,
                    cur,
                    jj,
                    old_min,
                    lowest as int,
                    nrem,
                    old_pos,
                    pos,
                );
                lemma_round_split(before, s, m, cur, jj, old_min, lowest as int);
                lemma_round_end(before, s, m, r, cur, jj, old_min, lowest as int);
            }
        }
        (Ok((sink, min_val)), Ghost((pos, num_remaining as int)))
    }

    /// Moves the dual values of the selected rows and columns so that the
    /// path found by the search becomes tight.
    fn update_dual_variables(
        &mut self,
        current_row: usize,
        min_value: i64,
        Ghost(sink): Ghost<int>,
        Ghost(nrem): Ghost<int>,
        Ghost(pos): Ghost<Seq<int>>,
        Ghost(bound): Ghost<int>,
    )
        requires
            between_rows(old(self)@, old(self).distance_matrix@, current_row as int, bound),
            current_row < old(self).distance_matrix@.rows,
            bound + 2 * old(self).distance_matrix@.cost_limit() <= i64::MAX,
            search_inv(
                old(self)@,
                old(self).distance_matrix@,
                current_row as int,
                min_value as int,
                nrem,
                pos,
            ),
            arrived(old(self)@, old(self).distance_matrix@, current_row as int, sink, min_value as int),
        ensures
            final(self).distance_matrix@ == old(self).distance_matrix@,
            final(self)@ == duals_model(old(self)@, current_row, min_value),
            repriced(
                final(self)@,
                final(self).distance_matrix@,
                current_row as int,
                sink,
                bound + final(self).distance_matrix@.cost_limit(),
                pos,
            ),
    {
        let nr = self.distance_matrix.rows;
        let nc = self.distance_matrix.columns;
        let ghost m = self.distance_matrix@;
        let ghost before = self@;
        let ghost goal = duals_model(before, current_row, min_value);
        let ghost r = current_row as int;
        proof {
            assert(0 <= before.dual_row[r] <= bound);
        }
        self.dual_row_values[current_row] = self.dual_row_values[current_row] + min_value;
        let mut row_idx: usize = 0;
        while row_idx < nr
            invariant
                self.distance_matrix@ == m,
                nr == m.rows,
                r == current_row,
                row_idx <= nr,
                between_rows(before, m, r, bound),
                r < m.rows,
                bound + 2 * m.cost_limit() <= i64::MAX,
                search_inv(before, m, r, min_value as int, nrem, pos),
                goal == duals_model(before, current_row, min_value),
                self@ == (LsapState { dual_row: self@.dual_row, ..before }),
                self@.dual_row.len() == nr,
                self@.dual_row[r] == goal.dual_row[r],
                forall|i: int| 0 <= i < row_idx ==> #[trigger] self@.dual_row[i] == goal.dual_row[i],
                forall|i: int|
                    row_idx <= i < nr && i != r ==> #[trigger] self@.dual_row[i]
                        == before.dual_row[i],
            decreases nr - row_idx,
        {
            if self.selected_rows[row_idx] && row_idx != current_row {
                proof {
                    let c = before.col_of[row_idx as int] as int;
                    assert(before.sel_rows[row_idx as int]);
                    assert(before.sel_cols[c]);
                    assert(before.path_cost[c] <= min_value);
                    assert(before.path_cost[c] != i64::MAX);
                    assert(0 <= before.dual_row[row_idx as int] <= bound);
                }
                let column = self.column_assigned_to_row[row_idx];
                self.dual_row_values[row_idx] = self.dual_row_values[row_idx] + (min_value
                    - self.shortest_path_costs[column]);
            }
            row_idx += 1;
        }
        let mut col_idx: usize = 0;
        while col_idx < nc
            invariant
                self.distance_matrix@ == m,
                nc == m.columns,
                r == current_row,
                col_idx <= nc,
                between_rows(before, m, r, bound),
                bound + 2 * m.cost_limit() <= i64::MAX,
                search_inv(before, m, r, min_value as int, nrem, pos),
                goal == duals_model(before, current_row, min_value),
                self@ == (LsapState { dual_row: self@.dual_row, dual_col: self@.dual_col, ..before }),
                self@.dual_row =~= goal.dual_row,
                self@.dual_col.len() == nc,
                forall|j: int| 0 <= j < col_idx ==> #[trigger] self@.dual_col[j] == goal.dual_col[j],
                forall|j: int|
                    col_idx <= j < nc ==> #[trigger] self@.dual_col[j] == before.dual_col[j],
            decreases nc - col_idx,
        {
            if self.selected_columns[col_idx] {
                proof {
                    let j = col_idx as int;
                    assert(before.sel_cols[j]);
                    assert(before.path_cost[j] <= min_value);
                    assert(before.path_cost[j] != i64::MAX);
                    assert(-bound <= before.dual_col[j] <= 0);
                }
                self.dual_column_values[col_idx] = self.dual_column_values[col_idx] - (min_value
                    - self.shortest_path_costs[col_idx]);
            }
            col_idx += 1;
        }
        proof {
            assert(self@.dual_col =~= goal.dual_col);
            assert(self@ == goal);
            lemma_repriced(before, m, r, sink, min_value as int, nrem, pos, bound);
        }
    }

    /// Flips the matching along the path from `sink_column` back to
    /// `current_row`, so that `current_row` is matched too.
    fn augment_solution(
        &mut self,
        current_row: usize,
        sink_column: usize,
        Ghost(pos): Ghost<Seq<int>>,
        Ghost(bound): Ghost<int>,
    )
        requires
            repriced(
                old(self)@,
                old(self).distance_matrix@,
                current_row as int,
                sink_column as int,
                bound,
                pos,
            ),
        ensures
            final(self).distance_matrix@ == old(self).distance_matrix@,
            final(self)@ == augment_model(
                old(self)@,
                current_row,
                sink_column,
                old(self).distance_matrix@.columns as nat,
            ),
            between_rows(final(self)@, final(self).distance_matrix@, current_row + 1, bound),
    {
        let ghost m = self.distance_matrix@;
        let ghost orig = self@;
        let ghost r = current_row as int;
        let ghost sink = sink_column as int;
        let ghost target = augment_model(orig, current_row, sink_column, m.columns as nat);
        let ghost mut fuel: nat = m.columns as nat;
        let mut column = sink_column;
        let mut done = false;
        proof {
            assert(walking(orig, orig, m, r, sink, sink, pos));
        }
        while !done
            invariant
                self.distance_matrix@ == m,
                r == current_row,
                sink == sink_column,
                repriced(orig, m, r, sink, bound, pos),
                shaped(self@, m),
                done ==> self@ == target && between_rows(self@, m, r + 1, bound),
                !done ==> walking(orig, self@, m, r, sink, column as int, pos),
                !done ==> target == augment_model(self@, current_row, column, fuel),
                !done ==> fuel >= m.columns - pos[column as int],
            decreases
                    (if done {
                        0int
                    } else {
                        m.columns - pos[column as int] + 1
                    }),
        {
            let ghost s = self@;
            let ghost t = lemma_walk_step(orig, s, m, r, sink, column as int, pos, bound);
            let row = self.augmentation_path[column];
            self.row_assigned_to_column[column] = row;
            let handed_on = self.column_assigned_to_row[row];
            self.column_assigned_to_row[row] = column;
            proof {
                assert(self@ == t);
                assert(fuel > 0);
            }
            column = handed_on;
            if row == current_row {
                done = true;
            } else {
                proof {
                    fuel = (fuel - 1) as nat;
                }
            }
        }
    }
}

/// Matches every row of `distance_matrix` to a column of its own.
///
/// The method needs at least as many columns as rows; with fewer it reports
/// that no assignment exists.
pub fn solve(distance_matrix: &DistanceMatrix) -> (res: Result<Vec<usize>, HungarianError>)
    requires
        distance_matrix.wf(),
        distance_matrix.costs_bounded(),
    ensures
        distance_matrix.columns < distance_matrix.rows ==> res == Err::<Vec<usize>, HungarianError>(
            HungarianError::Infeasible,
        ),
        distance_matrix.columns >= distance_matrix.rows ==> (res matches Ok(assignment)
            && assignment@ == solution(distance_matrix@) && is_matching(
            distance_matrix@,
            assignment@,
        ) && optimal(distance_matrix@, assignment@)),
{
    if distance_matrix.columns < distance_matrix.rows {
        return Err(HungarianError::Infeasible);
    }
    let mut solver = LsapSolver::new(distance_matrix);
    let res = solver.solve();
    proof {
        lemma_solution_optimal(
            solver@,
            distance_matrix@,
            distance_matrix.rows * distance_matrix.cost_limit(),
        );
    }
    res
}

} // verus!
