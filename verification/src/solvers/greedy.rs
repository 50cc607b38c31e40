//! The fast solver.

use crate::assignment::in_range;
use crate::assignment::is_assignment;
use crate::assignment::occurrences;
use crate::distance_matrix::Costs;
use crate::distance_matrix::DistanceMatrix;
use crate::error::PhomoError;
use crate::distance_matrix::lemma_cell_index;
use crate::solvers::check_input;
use crate::solvers::refusal;
use crate::solvers::Solve;
use crate::solvers::SolverConfig;
use vstd::prelude::*;
use vstd::set_lib::lemma_int_range;
use vstd::set_lib::lemma_len_subset;
use vstd::set_lib::set_int_range;

verus! {

/// Fills the cells one at a time, always with the cheapest pair of an empty
/// cell and a tile that may still be used.
///
/// Among pairs of equal cost the one with the lower cell wins, and then the
/// one with the lower tile. The [`CandidateQueue`] is kept lazily and holds
/// one candidate for every empty cell: the best tile that the cell knew
/// when it last looked. A cell looks again only when it comes up with a tile
/// that is used up. The answer is the one that a queue of all pairs, taken
/// in order, would give.
#[derive(Debug)]
pub struct Greedy {
    pub config: SolverConfig,
}

impl Default for Greedy {
    fn default() -> (solver: Self)
        ensures
            solver.config.max_tile_occurrences == 1,
    {
        Greedy { config: SolverConfig::default() }
    }
}

/// How far the greedy method has come: which cells are filled, with which
/// tile, and how often each tile is used.
pub struct GreedyState {
    pub filled: Seq<bool>,
    pub counts: Seq<usize>,
    pub assignment: Seq<usize>,
}

/// `cell` is empty and `tile` may still be used.
pub open spec fn open_pair(m: Costs, limit: int, s: GreedyState, cell: int, tile: int) -> bool {
    &&& 0 <= cell < m.rows
    &&& 0 <= tile < m.columns
    &&& !s.filled[cell]
    &&& s.counts[tile] < limit
}

/// The pair of `c1` and `t1` comes no later than the pair of `c2` and `t2`
/// when pairs are ordered by cost, then cell, then tile.
pub open spec fn no_later(m: Costs, c1: int, t1: int, c2: int, t2: int) -> bool {
    let a = m.cost(c1, t1);
    let b = m.cost(c2, t2);
    a < b || (a == b && (c1 < c2 || (c1 == c2 && t1 <= t2)))
}

/// The pair of `cell` and `tile` is open and comes first among the open pairs.
pub open spec fn is_first(m: Costs, limit: int, s: GreedyState, cell: int, tile: int) -> bool {
    &&& open_pair(m, limit, s, cell, tile)
    &&& forall|c: int, t: int| #[trigger]
        open_pair(m, limit, s, c, t) ==> no_later(m, cell, tile, c, t)
}

/// The open pair that comes first.
pub open spec fn first_pair(m: Costs, limit: int, s: GreedyState) -> (int, int) {
    choose|p: (int, int)| is_first(m, limit, s, p.0, p.1)
}

/// The state after `cell` has been filled with `tile`.
pub open spec fn fill(s: GreedyState, cell: int, tile: int) -> GreedyState {
    GreedyState {
        filled: s.filled.update(cell, true),
        counts: s.counts.update(tile, (s.counts[tile] + 1) as usize),
        assignment: s.assignment.update(cell, tile as usize),
    }
}

/// The state after `n` more cells have been filled, each with the open pair
/// that came first.
pub open spec fn greedy_model(m: Costs, limit: int, s: GreedyState, n: nat) -> GreedyState
    decreases n,
{
    if n == 0 {
        s
    } else {
        let p = first_pair(m, limit, s);
        greedy_model(m, limit, fill(s, p.0, p.1), (n - 1) as nat)
    }
}

/// The state before any cell is filled.
pub open spec fn greedy_start(m: Costs) -> GreedyState {
    GreedyState {
        filled: Seq::new(m.rows as nat, |i: int| false),
        counts: Seq::new(m.columns as nat, |j: int| 0usize),
        assignment: Seq::new(m.rows as nat, |i: int| 0usize),
    }
}

/// The assignment that the greedy method reaches.
pub open spec fn greedy_assignment(m: Costs, limit: int) -> Seq<usize> {
    greedy_model(m, limit, greedy_start(m), m.rows as nat).assignment
}

/// Only one open pair comes first.
pub proof fn lemma_first_pair(m: Costs, limit: int, s: GreedyState, cell: int, tile: int)
    requires
        is_first(m, limit, s, cell, tile),
    ensures
        first_pair(m, limit, s) == (cell, tile),
{
    let p = first_pair(m, limit, s);
    assert(is_first(m, limit, s, (cell, tile).0, (cell, tile).1));
    assert(is_first(m, limit, s, p.0, p.1));
    assert(open_pair(m, limit, s, p.0, p.1));
    assert(open_pair(m, limit, s, cell, tile));
    assert(no_later(m, cell, tile, p.0, p.1));
    assert(no_later(m, p.0, p.1, cell, tile));
}

/// The number of filled cells.
pub open spec fn count_filled(filled: Seq<bool>) -> nat
    decreases filled.len(),
{
    if filled.len() == 0 {
        0
    } else {
        count_filled(filled.drop_last()) + (if filled.last() {
            1nat
        } else {
            0nat
        })
    }
}

/// Filling an empty cell adds one to the number of filled cells.
pub proof fn lemma_count_filled_update(filled: Seq<bool>, cell: int)
    requires
        0 <= cell < filled.len(),
        !filled[cell],
    ensures
        count_filled(filled.update(cell, true)) == count_filled(filled) + 1,
    decreases filled.len(),
{
    let after = filled.update(cell, true);
    if cell == filled.len() - 1 {
        assert(after.drop_last() =~= filled.drop_last());
    } else {
        assert(after.drop_last() =~= filled.drop_last().update(cell, true));
        lemma_count_filled_update(filled.drop_last(), cell);
    }
}

/// There are no more filled cells than cells; with fewer, some cell is
/// empty, and with as many, none is.
pub proof fn lemma_count_filled_bounds(filled: Seq<bool>)
    ensures
        count_filled(filled) <= filled.len(),
        count_filled(filled) < filled.len() ==> exists|i: int|
            0 <= i < filled.len() && !filled[i],
        count_filled(filled) == filled.len() ==> forall|i: int|
            0 <= i < filled.len() ==> filled[i],
    decreases filled.len(),
{
    if filled.len() > 0 {
        let front = filled.drop_last();
        lemma_count_filled_bounds(front);
        if count_filled(filled) < filled.len() {
            if filled.last() {
                let i = choose|i: int| 0 <= i < front.len() && !front[i];
                assert(!filled[i]);
            } else {
                assert(!filled[filled.len() - 1]);
            }
        }
        if count_filled(filled) == filled.len() {
            assert forall|i: int| 0 <= i < filled.len() implies filled[i] by {
                if i < front.len() {
                    assert(front[i]);
                }
            }
        }
    }
}

/// The number of uses of all tiles together.
pub open spec fn count_sum(counts: Seq<usize>) -> nat
    decreases counts.len(),
{
    if counts.len() == 0 {
        0
    } else {
        count_sum(counts.drop_last()) + counts.last() as nat
    }
}

/// One more use of a tile is one more use in all.
pub proof fn lemma_count_sum_update(counts: Seq<usize>, tile: int)
    requires
        0 <= tile < counts.len(),
        counts[tile] < usize::MAX,
    ensures
        count_sum(counts.update(tile, (counts[tile] + 1) as usize)) == count_sum(counts) + 1,
    decreases counts.len(),
{
    let after = counts.update(tile, (counts[tile] + 1) as usize);
    if tile == counts.len() - 1 {
        assert(after.drop_last() =~= counts.drop_last());
    } else {
        assert(after.drop_last() =~= counts.drop_last().update(
            tile,
            (counts[tile] + 1) as usize,
        ));
        lemma_count_sum_update(counts.drop_last(), tile);
    }
}

/// With fewer uses than tiles, some tile is unused.
pub proof fn lemma_unused_tile(counts: Seq<usize>) -> (tile: int)
    requires
        count_sum(counts) < counts.len(),
    ensures
        0 <= tile < counts.len(),
        counts[tile] == 0,
    decreases counts.len(),
{
    if counts.last() == 0 {
        counts.len() - 1
    } else {
        lemma_unused_tile(counts.drop_last())
    }
}

/// The number of filled cells that show `tile`.
pub open spec fn uses(filled: Seq<bool>, assignment: Seq<usize>, tile: int) -> nat
    decreases filled.len(),
{
    if filled.len() == 0 || assignment.len() != filled.len() {
        0
    } else {
        uses(filled.drop_last(), assignment.drop_last(), tile) + (if filled.last()
            && assignment.last() == tile {
            1nat
        } else {
            0nat
        })
    }
}

/// Filling an empty cell with a tile is one more use of that tile and of no other.
pub proof fn lemma_uses_update(
    filled: Seq<bool>,
    assignment: Seq<usize>,
    cell: int,
    tile: usize,
    other: int,
)
    requires
        filled.len() == assignment.len(),
        0 <= cell < filled.len(),
        !filled[cell],
    ensures
        uses(filled.update(cell, true), assignment.update(cell, tile), other) == uses(
            filled,
            assignment,
            other,
        ) + (if other == tile {
            1nat
        } else {
            0nat
        }),
    decreases filled.len(),
{
    let f2 = filled.update(cell, true);
    let a2 = assignment.update(cell, tile);
    if cell == filled.len() - 1 {
        assert(f2.drop_last() =~= filled.drop_last());
        assert(a2.drop_last() =~= assignment.drop_last());
    } else {
        assert(f2.drop_last() =~= filled.drop_last().update(cell, true));
        assert(a2.drop_last() =~= assignment.drop_last().update(cell, tile));
        lemma_uses_update(filled.drop_last(), assignment.drop_last(), cell, tile, other);
    }
}

/// While no cell is filled, no tile is used.
pub proof fn lemma_uses_none(filled: Seq<bool>, assignment: Seq<usize>, tile: int)
    requires
        forall|i: int| 0 <= i < filled.len() ==> !filled[i],
    ensures
        uses(filled, assignment, tile) == 0,
    decreases filled.len(),
{
    if filled.len() > 0 && assignment.len() == filled.len() {
        assert(!filled[filled.len() - 1]);
        assert forall|i: int| 0 <= i < filled.drop_last().len() implies !filled.drop_last()[i] by {
            assert(filled.drop_last()[i] == filled[i]);
        }
        lemma_uses_none(filled.drop_last(), assignment.drop_last(), tile);
    }
}

/// Once every cell is filled, the uses of a tile are its occurrences.
pub proof fn lemma_uses_all(filled: Seq<bool>, assignment: Seq<usize>, columns: int, tile: int)
    requires
        filled.len() == assignment.len(),
        forall|i: int| 0 <= i < filled.len() ==> filled[i],
        in_range(assignment, columns),
    ensures
        uses(filled, assignment, tile) == occurrences(assignment, columns, tile),
    decreases filled.len(),
{
    if filled.len() > 0 {
        let last = filled.len() - 1;
        assert(filled[last]);
        assert(assignment[last] < columns);
        vstd::arithmetic::div_mod::lemma_small_mod(assignment[last] as nat, columns as nat);
        assert forall|i: int| 0 <= i < filled.drop_last().len() implies filled.drop_last()[i] by {
            assert(filled.drop_last()[i] == filled[i]);
        }
        assert forall|i: int| 0 <= i < assignment.drop_last().len() implies 0
            <= #[trigger] assignment.drop_last()[i] < columns by {
            assert(assignment.drop_last()[i] == assignment[i]);
        }
        lemma_uses_all(filled.drop_last(), assignment.drop_last(), columns, tile);
    }
}

/// The tile that is cheapest for `cell` among those that may still be used,
/// the lowest one where several are cheapest, with its cost.
pub fn best_available(
    distance_matrix: &DistanceMatrix,
    cell: usize,
    n_appearances: &Vec<usize>,
    max_tile_occurrences: usize,
) -> (best: (i64, usize))
    requires
        distance_matrix.wf(),
        cell < distance_matrix.rows,
        n_appearances.len() == distance_matrix.columns,
        exists|t: int| 0 <= t < n_appearances.len() && n_appearances[t] < max_tile_occurrences,
    ensures
        best.1 < distance_matrix.columns,
        n_appearances[best.1 as int] < max_tile_occurrences,
        best.0 == distance_matrix@.cost(cell as int, best.1 as int),
        forall|t: int|
            0 <= t < distance_matrix.columns && #[trigger] n_appearances[t] < max_tile_occurrences
                ==> best.0 < distance_matrix@.cost(cell as int, t) || (best.0
                == distance_matrix@.cost(cell as int, t) && best.1 <= t),
{
    let n_tiles = distance_matrix.columns;
    let ghost m = distance_matrix@;
    let mut found = false;
    let mut best_tile: usize = 0;
    let mut best_distance: i64 = i64::MAX;
    let mut tile_idx: usize = 0;
    proof {
        assert(distance_matrix.data.len() == m.data.len());
    }
    while tile_idx < n_tiles
        invariant
            distance_matrix.wf(),
            m == distance_matrix@,
            distance_matrix.data.len() == m.data.len(),
            n_tiles == m.columns,
            cell < m.rows,
            n_appearances.len() == n_tiles,
            tile_idx <= n_tiles,
            !found ==> forall|t: int|
                0 <= t < tile_idx ==> #[trigger] n_appearances[t] >= max_tile_occurrences,
            found ==> best_tile < tile_idx && n_appearances[best_tile as int]
                < max_tile_occurrences && best_distance == m.cost(cell as int, best_tile as int),
            found ==> forall|t: int|
                0 <= t < tile_idx && #[trigger] n_appearances[t] < max_tile_occurrences
                    ==> best_distance < m.cost(cell as int, t) || (best_distance == m.cost(
                    cell as int,
                    t,
                ) && best_tile <= t),
        decreases n_tiles - tile_idx,
    {
        if n_appearances[tile_idx] < max_tile_occurrences {
            proof {
                lemma_cell_index(m.rows as int, m.columns as int, cell as int, tile_idx as int);
            }
            let distance = distance_matrix.get(cell, tile_idx);
            if !found || distance < best_distance {
                best_distance = distance;
                best_tile = tile_idx;
                found = true;
            }
        }
        tile_idx += 1;
    }
    (best_distance, best_tile)
}

/// The queue of candidates, ordered by cost and then by cell.
///
/// The greedy method never has two candidates of one cell waiting, so the
/// queue is kept as one slot per cell: the cost and the tile of the cell's
/// candidate, and whether it waits. The least candidate is found by a scan.
#[derive(Debug)]
pub struct CandidateQueue {
    pub cost: Vec<i64>,
    pub tile: Vec<usize>,
    pub waiting: Vec<bool>,
}

impl CandidateQueue {
    /// There is one slot for every cell.
    pub open spec fn wf(&self) -> bool {
        self.cost.len() == self.waiting.len() && self.tile.len() == self.waiting.len()
    }

    /// The candidate of `cell` waits, and none that waits comes before it.
    pub open spec fn is_least(&self, cell: int) -> bool {
        &&& 0 <= cell < self.waiting.len()
        &&& self.waiting[cell]
        &&& forall|c: int|
            0 <= c < self.waiting.len() && #[trigger] self.waiting[c] ==> self.cost[cell]
                < self.cost[c] || (self.cost[cell] == self.cost[c] && cell <= c)
    }

    /// A queue for `cells` cells in which no candidate waits.
    pub fn new(cells: usize) -> (queue: Self)
        ensures
            queue.wf(),
            queue.waiting.len() == cells,
            forall|c: int| 0 <= c < cells ==> !#[trigger] queue.waiting[c],
    {
        CandidateQueue {
            cost: vec![0i64; cells],
            tile: vec![0usize; cells],
            waiting: vec![false; cells],
        }
    }

    /// Lets the candidate of `cell` wait: `tile` at `cost`.
    pub fn push(&mut self, cost: i64, cell: usize, tile: usize)
        requires
            old(self).wf(),
            cell < old(self).waiting.len(),
            !old(self).waiting[cell as int],
        ensures
            final(self).wf(),
            final(self).cost@ == old(self).cost@.update(cell as int, cost),
            final(self).tile@ == old(self).tile@.update(cell as int, tile),
            final(self).waiting@ == old(self).waiting@.update(cell as int, true),
    {
        self.cost[cell] = cost;
        self.tile[cell] = tile;
        self.waiting[cell] = true;
    }

    /// Takes the least candidate out of the queue: its cost, its cell and
    /// its tile. `None` where no candidate waits.
    pub fn pop(&mut self) -> (least: Option<(i64, usize, usize)>)
        requires
            old(self).wf(),
        ensures
            final(self).wf(),
            final(self).cost@ == old(self).cost@,
            final(self).tile@ == old(self).tile@,
            match least {
                None => final(self).waiting@ == old(self).waiting@ && forall|c: int|
                    0 <= c < old(self).waiting.len() ==> !#[trigger] old(self).waiting[c],
                Some((cost, cell, tile)) => {
                    &&& old(self).is_least(cell as int)
                    &&& cost == old(self).cost[cell as int]
                    &&& tile == old(self).tile[cell as int]
                    &&& final(self).waiting@ == old(self).waiting@.update(cell as int, false)
                },
            },
    {
        let mut found = false;
        let mut best: usize = 0;
        let mut i: usize = 0;
        while i < self.waiting.len()
            invariant
                self.wf(),
                i <= self.waiting.len(),
                !found ==> forall|c: int| 0 <= c < i ==> !#[trigger] self.waiting[c],
                found ==> best < i && self.waiting[best as int],
                found ==> forall|c: int|
                    0 <= c < i && #[trigger] self.waiting[c] ==> self.cost[best as int]
                        < self.cost[c] || (self.cost[best as int] == self.cost[c] && best <= c),
            decreases self.waiting.len() - i,
        {
            if self.waiting[i] && (!found || self.cost[i] < self.cost[best]) {
                best = i;
                found = true;
            }
            i += 1;
        }
        if found {
            self.waiting[best] = false;
            Some((self.cost[best], best, self.tile[best]))
        } else {
            None
        }
    }
}

impl Greedy {
    /// A solver that works with `config`.
    pub fn new(config: SolverConfig) -> (solver: Self)
        ensures
            solver.config == config,
    {
        Self { config }
    }

    /// Replaces the configuration.
    pub fn configure(&mut self, config: SolverConfig)
        ensures
            final(self).config == config,
    {
        self.config = config;
    }
}

/// What the greedy method keeps true from one step to the next. Every
/// empty cell holds a candidate: a tile with its cost that no tile that may
/// still be used beats.
pub open spec fn greedy_inv(
    m: Costs,
    limit: int,
    s: GreedyState,
    queue_cost: Seq<i64>,
    queue_tile: Seq<usize>,
    filled_count: int,
) -> bool {
    &&& s.filled.len() == m.rows
    &&& s.assignment.len() == m.rows
    &&& s.counts.len() == m.columns
    &&& queue_cost.len() == m.rows
    &&& queue_tile.len() == m.rows
    &&& 0 <= filled_count <= m.rows
    &&& count_filled(s.filled) == filled_count
    &&& count_sum(s.counts) == filled_count
    &&& forall|t: int|
        0 <= t < m.columns ==> (#[trigger] s.counts[t]) <= limit && s.counts[t] == uses(
            s.filled,
            s.assignment,
            t,
        )
    &&& forall|c: int| 0 <= c < m.rows && #[trigger] s.filled[c] ==> s.assignment[c] < m.columns
    &&& forall|c: int|
        0 <= c < m.rows && !#[trigger] s.filled[c] ==> queue_tile[c] < m.columns && queue_cost[c]
            == m.cost(c, queue_tile[c] as int)
    &&& forall|c: int, t: int|
        0 <= c < m.rows && 0 <= t < m.columns && !s.filled[c] && s.counts[t] < limit
            ==> queue_cost[c] < #[trigger] m.cost(c, t) || (queue_cost[c] == m.cost(c, t)
            && queue_tile[c] <= t)
}

/// The empty cells whose candidate tile is used up.
pub open spec fn stale_cells(m: Costs, limit: int, s: GreedyState, queue_tile: Seq<usize>) -> Set<
    int,
> {
    Set::new(
        |c: int| 0 <= c < m.rows && !s.filled[c] && s.counts[queue_tile[c] as int] >= limit,
    )
}

/// Filling the cheapest empty cell with its candidate, where that may still
/// be used, fills the open pair that comes first.
pub proof fn lemma_greedy_fill(
    m: Costs,
    limit: int,
    s: GreedyState,
    queue_cost: Seq<i64>,
    queue_tile: Seq<usize>,
    filled_count: int,
    cell: int,
)
    requires
        m.wf(),
        0 < limit <= usize::MAX,
        greedy_inv(m, limit, s, queue_cost, queue_tile, filled_count),
        0 <= cell < m.rows,
        !s.filled[cell],
        forall|c: int|
            0 <= c < m.rows && !#[trigger] s.filled[c] ==> queue_cost[cell] < queue_cost[c] || (
            queue_cost[cell] == queue_cost[c] && cell <= c),
        s.counts[queue_tile[cell] as int] < limit,
    ensures
        is_first(m, limit, s, cell, queue_tile[cell] as int),
        greedy_inv(
            m,
            limit,
            fill(s, cell, queue_tile[cell] as int),
            queue_cost,
            queue_tile,
            filled_count + 1,
        ),
{
    let tile = queue_tile[cell] as int;
    let after = fill(s, cell, tile);
    assert forall|c: int, t: int| #[trigger] open_pair(m, limit, s, c, t) implies no_later(
        m,
        cell,
        tile,
        c,
        t,
    ) by {
        assert(!s.filled[c]);
        assert(queue_cost[c] < m.cost(c, t) || (queue_cost[c] == m.cost(c, t) && queue_tile[c]
            <= t));
    }
    lemma_count_filled_update(s.filled, cell);
    lemma_count_sum_update(s.counts, tile);
    lemma_count_filled_bounds(s.filled);
    assert forall|t: int| 0 <= t < m.columns implies (#[trigger] after.counts[t]) <= limit
        && after.counts[t] == uses(after.filled, after.assignment, t) by {
        lemma_uses_update(s.filled, s.assignment, cell, tile as usize, t);
        assert(s.counts[t] <= limit);
    }
    assert forall|c: int, t: int|
        0 <= c < m.rows && 0 <= t < m.columns && !after.filled[c] && after.counts[t]
            < limit implies queue_cost[c] < #[trigger] m.cost(c, t) || (queue_cost[c] == m.cost(
        c,
        t,
    ) && queue_tile[c] <= t) by {
        assert(!s.filled[c]);
        assert(s.counts[t] < limit);
    }
}

/// Giving a cell whose candidate is used up the best tile that may still be
/// used keeps everything in order, and leaves one stale cell less.
pub proof fn lemma_greedy_refresh(
    m: Costs,
    limit: int,
    s: GreedyState,
    queue_cost: Seq<i64>,
    queue_tile: Seq<usize>,
    filled_count: int,
    cell: int,
    best: (i64, usize),
)
    requires
        m.wf(),
        greedy_inv(m, limit, s, queue_cost, queue_tile, filled_count),
        0 <= cell < m.rows,
        !s.filled[cell],
        s.counts[queue_tile[cell] as int] >= limit,
        best.1 < m.columns,
        s.counts[best.1 as int] < limit,
        best.0 == m.cost(cell, best.1 as int),
        forall|t: int|
            0 <= t < m.columns && #[trigger] s.counts[t] < limit ==> best.0 < m.cost(cell, t) || (
            best.0 == m.cost(cell, t) && best.1 <= t),
    ensures
        greedy_inv(
            m,
            limit,
            s,
            queue_cost.update(cell, best.0),
            queue_tile.update(cell, best.1),
            filled_count,
        ),
        stale_cells(m, limit, s, queue_tile.update(cell, best.1)).len() < stale_cells(
            m,
            limit,
            s,
            queue_tile,
        ).len(),
{
    let qc = queue_cost.update(cell, best.0);
    let qt = queue_tile.update(cell, best.1);
    assert forall|c: int, t: int|
        0 <= c < m.rows && 0 <= t < m.columns && !s.filled[c] && s.counts[t] < limit implies qc[c]
        < #[trigger] m.cost(c, t) || (qc[c] == m.cost(c, t) && qt[c] <= t) by {
        if c != cell {
            assert(queue_cost[c] < m.cost(c, t) || (queue_cost[c] == m.cost(c, t) && queue_tile[c]
                <= t));
        }
    }
    let before = stale_cells(m, limit, s, queue_tile);
    let after = stale_cells(m, limit, s, qt);
    let all = set_int_range(0, m.rows as int);
    lemma_int_range(0, m.rows as int);
    assert(before.subset_of(all));
    lemma_len_subset(before, all);
    assert(before.contains(cell));
    assert(after =~= before.remove(cell));
}

impl Solve for Greedy {
    open spec fn config(&self) -> SolverConfig {
        self.config
    }

    /// The greedy method only compares costs, so it takes every matrix.
    open spec fn accepts(&self, m: Costs) -> bool {
        true
    }

    open spec fn assignment(&self, m: Costs) -> Seq<usize> {
        greedy_assignment(m, self.config.max_tile_occurrences as int)
    }

    fn can_solve(&self, distance_matrix: &DistanceMatrix) -> (ok: bool) {
        check_input(&self.config, distance_matrix).is_err() || distance_matrix.is_well_formed()
    }

    /// Beyond what every solver owes, every row is given a tile itself, not
    /// one of its repeats: every entry lies below the number of columns.
    fn solve(&mut self, distance_matrix: &DistanceMatrix) -> (res: Result<Vec<usize>, PhomoError>)
        ensures
            res matches Ok(assignment) ==> in_range(assignment@, distance_matrix@.columns as int),
    {
        match check_input(&self.config, distance_matrix) {
            Err(e) => {
                return Err(PhomoError::SolverError(e));
            },
            Ok(_) => {},
        }
        let n_cells = distance_matrix.rows;
        let n_tiles = distance_matrix.columns;
        let max_tile_occurrences = self.config.max_tile_occurrences;
        let ghost m = distance_matrix@;
        let ghost limit = max_tile_occurrences as int;
        proof {
            assert(m.rows <= m.rows * limit) by (nonlinear_arith)
                requires
                    limit >= 1,
                    m.rows >= 0,
            ;
            assert(m.columns <= m.columns * limit) by (nonlinear_arith)
                requires
                    limit >= 1,
                    m.columns >= 0,
            ;
        }
        let mut n_appearances: Vec<usize> = vec![0usize; n_tiles];
        let mut assignments: Vec<usize> = vec![0usize; n_cells];
        let mut filled: Vec<bool> = vec![false; n_cells];
        let mut queue = CandidateQueue::new(n_cells);
        // Every cell starts with the tile that is best for it.
        let mut row_idx: usize = 0;
        while row_idx < n_cells
            invariant
                distance_matrix.wf(),
                m == distance_matrix@,
                n_cells == m.rows,
                n_tiles == m.columns,
                limit == max_tile_occurrences,
                limit >= 1,
                row_idx <= n_cells,
                n_appearances.len() == n_tiles,
                forall|t: int| 0 <= t < n_tiles ==> #[trigger] n_appearances[t] == 0,
                queue.wf(),
                queue.waiting.len() == n_cells,
                forall|c: int| 0 <= c < n_cells ==> (#[trigger] queue.waiting[c] <==> c < row_idx),
                forall|c: int|
                    0 <= c < row_idx ==> (#[trigger] queue.tile[c]) < m.columns && queue.cost[c]
                        == m.cost(c, queue.tile[c] as int),
                forall|c: int, t: int|
                    0 <= c < row_idx && 0 <= t < m.columns ==> queue.cost[c] < #[trigger] m.cost(
                        c,
                        t,
                    ) || (queue.cost[c] == m.cost(c, t) && queue.tile[c] <= t),
            decreases n_cells - row_idx,
        {
            proof {
                assert(n_appearances[0] < max_tile_occurrences);
            }
            let best = best_available(
                distance_matrix,
                row_idx,
                &n_appearances,
                max_tile_occurrences,
            );
            queue.push(best.0, row_idx, best.1);
            proof {
                assert forall|c: int, t: int|
                    0 <= c < row_idx + 1 && 0 <= t < m.columns implies queue.cost[c]
                    < #[trigger] m.cost(c, t) || (queue.cost[c] == m.cost(c, t) && queue.tile[c]
                    <= t) by {
                    if c == row_idx {
                        assert(n_appearances[t] < max_tile_occurrences);
                    }
                }
            }
            row_idx += 1;
        }
        let ghost start = GreedyState {
            filled: filled@,
            counts: n_appearances@,
            assignment: assignments@,
        };
        let ghost target = greedy_model(m, limit, start, m.rows as nat);
        proof {
            let goal = greedy_start(m);
            assert(start.filled =~= goal.filled);
            assert(start.counts =~= goal.counts);
            assert(start.assignment =~= goal.assignment);
            lemma_count_filled_none(start.filled);
            lemma_count_sum_none(start.counts);
            assert forall|t: int| 0 <= t < m.columns implies (#[trigger] start.counts[t]) <= limit
                && start.counts[t] == uses(start.filled, start.assignment, t) by {
                lemma_uses_none(start.filled, start.assignment, t);
            }
        }
        let mut filled_count: usize = 0;
        loop
            invariant
                distance_matrix.wf(),
                m == distance_matrix@,
                n_cells == m.rows,
                n_tiles == m.columns,
                limit == max_tile_occurrences,
                limit >= 1,
                m.columns >= m.rows * limit,
                m.rows <= m.rows * limit,
                n_appearances.len() == n_tiles,
                queue.wf(),
                queue.waiting.len() == n_cells,
                forall|c: int| 0 <= c < n_cells ==> #[trigger] queue.waiting[c] == !filled[c],
                greedy_inv(
                    m,
                    limit,
                    GreedyState {
                        filled: filled@,
                        counts: n_appearances@,
                        assignment: assignments@,
                    },
                    queue.cost@,
                    queue.tile@,
                    filled_count as int,
                ),
                target == greedy_model(
                    m,
                    limit,
                    GreedyState {
                        filled: filled@,
                        counts: n_appearances@,
                        assignment: assignments@,
                    },
                    (m.rows - filled_count) as nat,
                ),
            ensures
                filled_count == n_cells,
            decreases
                    n_cells - filled_count,
                    stale_cells(
                        m,
                        limit,
                        GreedyState {
                            filled: filled@,
                            counts: n_appearances@,
                            assignment: assignments@,
                        },
                        queue.tile@,
                    ).len(),
        {
            let ghost s = GreedyState {
                filled: filled@,
                counts: n_appearances@,
                assignment: assignments@,
            };
            let ghost waiting = queue.waiting@;
            proof {
                lemma_count_filled_bounds(s.filled);
            }
            let (cell_idx, tile_idx) = match queue.pop() {
                Some((_, cell_idx, tile_idx)) => (cell_idx, tile_idx),
                None => {
                    proof {
                        assert forall|c: int| 0 <= c < s.filled.len() implies s.filled[c] by {
                            assert(!waiting[c]);
                        }
                    }
                    break ;
                },
            };
            proof {
                assert(waiting[cell_idx as int]);
                assert forall|c: int|
                    0 <= c < m.rows && !#[trigger] s.filled[c] implies queue.cost[cell_idx as int]
                    < queue.cost[c] || (queue.cost[cell_idx as int] == queue.cost[c] && cell_idx
                    <= c) by {
                    assert(waiting[c]);
                }
            }
            if n_appearances[tile_idx] < max_tile_occurrences {
                proof {
                    lemma_greedy_fill(
                        m,
                        limit,
                        s,
                        queue.cost@,
                        queue.tile@,
                        filled_count as int,
                        cell_idx as int,
                    );
                    lemma_first_pair(m, limit, s, cell_idx as int, tile_idx as int);
                }
                assignments[cell_idx] = tile_idx;
                n_appearances[tile_idx] = n_appearances[tile_idx] + 1;
                filled[cell_idx] = true;
                filled_count += 1;
                proof {
                    let after = GreedyState {
                        filled: filled@,
                        counts: n_appearances@,
                        assignment: assignments@,
                    };
                    assert(after == fill(s, cell_idx as int, tile_idx as int));
                }
            } else {
                proof {
                    let unused = lemma_unused_tile(s.counts);
                    assert(n_appearances[unused] < max_tile_occurrences);
                }
                let best = best_available(
                    distance_matrix,
                    cell_idx,
                    &n_appearances,
                    max_tile_occurrences,
                );
                proof {
                    lemma_greedy_refresh(
                        m,
                        limit,
                        s,
                        queue.cost@,
                        queue.tile@,
                        filled_count as int,
                        cell_idx as int,
                        best,
                    );
                }
                queue.push(best.0, cell_idx, best.1);
            }
        }
        proof {
            let s = GreedyState {
                filled: filled@,
                counts: n_appearances@,
                assignment: assignments@,
            };
            lemma_count_filled_bounds(s.filled);
            assert(in_range(assignments@, m.columns as int)) by {
                assert forall|i: int| 0 <= i < assignments@.len() implies 0
                    <= #[trigger] assignments@[i] < m.columns by {
                    assert(s.filled[i]);
                }
            }
            assert forall|tile: int| 0 <= tile < m.columns implies #[trigger] occurrences(
                assignments@,
                m.columns as int,
                tile,
            ) <= limit by {
                lemma_uses_all(s.filled, s.assignment, m.columns as int, tile);
                assert(s.counts[tile] <= limit);
            }
            assert(is_assignment(m, limit, assignments@));
            assert(refusal(self.config, m) is None);
        }
        Ok(assignments)
    }
}

/// While no cell is filled, the number of filled cells is zero.
pub proof fn lemma_count_filled_none(filled: Seq<bool>)
    requires
        forall|i: int| 0 <= i < filled.len() ==> !filled[i],
    ensures
        count_filled(filled) == 0,
    decreases filled.len(),
{
    if filled.len() > 0 {
        assert(!filled[filled.len() - 1]);
        assert forall|i: int| 0 <= i < filled.drop_last().len() implies !filled.drop_last()[i] by {
            assert(filled.drop_last()[i] == filled[i]);
        }
        lemma_count_filled_none(filled.drop_last());
    }
}

/// While no tile is used, the number of uses is zero.
pub proof fn lemma_count_sum_none(counts: Seq<usize>)
    requires
        forall|i: int| 0 <= i < counts.len() ==> counts[i] == 0,
    ensures
        count_sum(counts) == 0,
    decreases counts.len(),
{
    if counts.len() > 0 {
        assert(counts[counts.len() - 1] == 0);
        assert forall|i: int| 0 <= i < counts.drop_last().len() implies counts.drop_last()[i]
            == 0 by {
            assert(counts.drop_last()[i] == counts[i]);
        }
        lemma_count_sum_none(counts.drop_last());
    }
}

} // verus!
