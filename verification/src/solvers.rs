//! Solvers for the assignment of tiles to cells.
//!
//! All solvers share one contract: they refuse a configuration that allows
//! no use of any tile, they refuse a matrix with fewer columns than
//! `rows * max_tile_occurrences`, and on every other input they return an
//! assignment that gives every row a tile and uses no tile more often than
//! the configuration allows.

pub mod error;
pub mod auction;
pub mod greedy;
pub mod hungarian;

use crate::assignment::is_assignment;
use crate::distance_matrix::Costs;
use crate::distance_matrix::DistanceMatrix;
use crate::error::PhomoError;
use crate::solvers::error::SolverError;
use vstd::prelude::*;

verus! {

/// What all solvers are told.
#[derive(Debug, Clone, Copy)]
pub struct SolverConfig {
    /// How many cells may show the same tile. At least one.
    pub max_tile_occurrences: usize,
}

impl Default for SolverConfig {
    /// Every tile may be used once.
    fn default() -> (config: Self)
        ensures
            config.max_tile_occurrences == 1,
    {
        SolverConfig { max_tile_occurrences: 1 }
    }
}

/// Why a solver with configuration `config` refuses the matrix `m`, if it
/// does: the configuration allows no use of any tile, or the matrix has
/// fewer columns than `rows * max_tile_occurrences`.
pub open spec fn refusal(config: SolverConfig, m: Costs) -> Option<SolverError> {
    if config.max_tile_occurrences == 0 {
        Some(SolverError::ConfigError)
    } else if m.columns < m.rows * config.max_tile_occurrences {
        Some(SolverError::TooFewColumns { rows: m.rows, columns: m.columns })
    } else {
        None
    }
}

/// What a solver with configuration `config` owes on the matrix `m`: the
/// refusal where there is one, and otherwise an assignment that gives every
/// row a tile and uses no tile more often than allowed.
pub open spec fn outcome(
    config: SolverConfig,
    m: Costs,
    res: Result<Vec<usize>, PhomoError>,
) -> bool {
    match refusal(config, m) {
        Some(e) => res matches Err(PhomoError::SolverError(found)) && found == e,
        None => res matches Ok(assignment) && is_assignment(
            m,
            config.max_tile_occurrences as int,
            assignment@,
        ),
    }
}

/// The checks that every solver makes before it starts.
pub fn check_input(config: &SolverConfig, distance_matrix: &DistanceMatrix) -> (res: Result<
    (),
    SolverError,
>)
    ensures
        res == (match refusal(*config, distance_matrix@) {
            Some(e) => Err::<(), SolverError>(e),
            None => Ok::<(), SolverError>(()),
        }),
{
    if config.max_tile_occurrences == 0 {
        return Err(SolverError::ConfigError);
    }
    let too_few = match distance_matrix.rows.checked_mul(config.max_tile_occurrences) {
        Some(needed) => distance_matrix.columns < needed,
        None => true,
    };
    if too_few {
        return Err(
            SolverError::TooFewColumns {
                rows: distance_matrix.rows,
                columns: distance_matrix.columns,
            },
        );
    }
    Ok(())
}

/// A method that assigns a tile to every cell.
pub trait Solve: Sized {
    /// The configuration that the solver works with.
    spec fn config(&self) -> SolverConfig;

    /// Whether the costs of `m` are small enough for the solver's sums.
    spec fn accepts(&self, m: Costs) -> bool;

    /// The assignment that the solver reaches on `m`. It depends on the
    /// solver and the matrix alone: solving twice gives the same answer.
    spec fn assignment(&self, m: Costs) -> Seq<usize>;

    /// Tests what `solve` asks of its caller: that `distance_matrix` holds
    /// an entry for every pair of a row and a column and that its costs are
    /// small enough for the solver's sums, unless the solver refuses the
    /// matrix before it reads any entry.
    fn can_solve(&self, distance_matrix: &DistanceMatrix) -> (ok: bool)
        ensures
            ok == (refusal(self.config(), distance_matrix@) is None ==> distance_matrix.wf()
                && self.accepts(distance_matrix@)),
    ;

    /// Assigns a tile to every row of `distance_matrix`.
    ///
    /// The matrix needs to be well formed, and its costs small enough, only
    /// where the solver does not refuse it before it reads any entry.
    fn solve(&mut self, distance_matrix: &DistanceMatrix) -> (res: Result<Vec<usize>, PhomoError>)
        requires
            refusal(old(self).config(), distance_matrix@) is None ==> distance_matrix.wf() && old(
                self,
            ).accepts(distance_matrix@),
        ensures
            *final(self) == *old(self),
            outcome(old(self).config(), distance_matrix@, res),
            res matches Ok(assignment) ==> assignment@ == old(self).assignment(distance_matrix@),
    ;
}

/// Every solver refuses a matrix with fewer columns than
/// `rows * max_tile_occurrences`, and names the shape it found.
pub proof fn lemma_too_few_columns(
    config: SolverConfig,
    m: Costs,
    res: Result<Vec<usize>, PhomoError>,
)
    requires
        config.max_tile_occurrences > 0,
        m.columns < m.rows * config.max_tile_occurrences,
        outcome(config, m, res),
    ensures
        res matches Err(PhomoError::SolverError(SolverError::TooFewColumns { rows, columns }))
            && rows == m.rows && columns == m.columns,
{
}

/// What a solver returns gives every row a column below
/// `columns * max_tile_occurrences`, whose tile `column % columns` is a tile
/// of the matrix, and shows no tile more often than allowed.
pub proof fn lemma_assignment_is_valid(
    config: SolverConfig,
    m: Costs,
    res: Result<Vec<usize>, PhomoError>,
)
    requires
        m.wf(),
        outcome(config, m, res),
        res is Ok,
    ensures
        res matches Ok(assignment) && {
            &&& assignment@.len() == m.rows
            &&& forall|i: int|
                0 <= i < m.rows ==> 0 <= #[trigger] assignment@[i] < m.columns
                    * config.max_tile_occurrences
            &&& forall|i: int|
                0 <= i < m.rows ==> 0 <= (#[trigger] assignment@[i]) as int % (m.columns as int)
                    < m.columns
            &&& forall|tile: int|
                0 <= tile < m.columns ==> #[trigger] crate::assignment::occurrences(
                    assignment@,
                    m.columns as int,
                    tile,
                ) <= config.max_tile_occurrences
        },
{
    let assignment = res->Ok_0;
    assert forall|i: int| 0 <= i < m.rows implies 0 <= (#[trigger] assignment@[i]) as int % (
    m.columns as int) < m.columns by {
        vstd::arithmetic::div_mod::lemma_mod_pos_bound(assignment@[i] as int, m.columns as int);
    }
}

/// A solver that is run twice on one matrix gives one answer: the same
/// assignment, or the same refusal.
pub proof fn lemma_solve_is_repeatable<S: Solve>(
    solver: S,
    m: Costs,
    first: Result<Vec<usize>, PhomoError>,
    second: Result<Vec<usize>, PhomoError>,
)
    requires
        outcome(solver.config(), m, first),
        outcome(solver.config(), m, second),
        first matches Ok(a) ==> a@ == solver.assignment(m),
        second matches Ok(a) ==> a@ == solver.assignment(m),
    ensures
        first is Ok <==> second is Ok,
        first is Ok ==> first->Ok_0@ == second->Ok_0@,
        first is Err ==> first->Err_0 == second->Err_0,
{
}

} // verus!
