//! The exact solver.

use crate::assignment::cheapest;
use crate::assignment::is_assignment;
use crate::assignment::is_matching;
use crate::assignment::total_cost;
use crate::assignment::lemma_tiled_optimum;
use crate::distance_matrix::lemma_tile_bounded;
use crate::distance_matrix::lemma_tile_once;
use crate::distance_matrix::Costs;
use crate::distance_matrix::DistanceMatrix;
use crate::error::PhomoError;
use crate::lsap;
use crate::solvers::check_input;
use crate::solvers::error::SolverError;
use crate::solvers::Solve;
use crate::solvers::SolverConfig;
use vstd::prelude::*;

verus! {

/// Finds an assignment of the least total cost, by shortest augmenting
/// paths.
///
/// A tile that may be used several times is offered as that many columns of
/// equal cost; a column `c` of the answer stands for tile `c % columns`.
/// Where several assignments cost least, the one that the search reaches is
/// returned; the search breaks ties in one fixed way, in favour of columns
/// that are still free.
#[derive(Debug)]
pub struct Hungarian {
    pub config: SolverConfig,
}

impl Default for Hungarian {
    fn default() -> (solver: Self)
        ensures
            solver.config.max_tile_occurrences == 1,
    {
        Hungarian { config: SolverConfig::default() }
    }
}

impl Hungarian {
    /// A solver that works with `config`.
    pub fn new(config: SolverConfig) -> (solver: Self)
        ensures
            solver.config == config,
    {
        Self { config }
    }
}

impl Solve for Hungarian {
    open spec fn config(&self) -> SolverConfig {
        self.config
    }

    /// The costs are within the matrix' cost limit, and the matrix with
    /// every tile repeated still fits in memory.
    open spec fn accepts(&self, m: Costs) -> bool {
        &&& m.costs_bounded()
        &&& m.rows * m.columns * self.config.max_tile_occurrences <= usize::MAX
    }

    open spec fn assignment(&self, m: Costs) -> Seq<usize> {
        lsap::solution(m.tile(self.config.max_tile_occurrences))
    }

    fn can_solve(&self, distance_matrix: &DistanceMatrix) -> (ok: bool) {
        if check_input(&self.config, distance_matrix).is_err() {
            return true;
        }
        if !distance_matrix.is_well_formed() {
            return false;
        }
        let limit = distance_matrix.limit_for(1);
        proof {
            assert(distance_matrix.data.len() == distance_matrix@.data.len());
            assert(1 * (distance_matrix.rows as int + 1) == distance_matrix.rows as int + 1);
        }
        let fits = match distance_matrix.data.len().checked_mul(self.config.max_tile_occurrences) {
            Some(_) => true,
            None => false,
        };
        fits && distance_matrix.costs_within(limit)
    }

    /// Beyond what every solver owes, the assignment gives every row a
    /// column of its own among the repeated tiles, and it is the cheapest one
    /// in which no tile is used more often than allowed.
    fn solve(&mut self, distance_matrix: &DistanceMatrix) -> (res: Result<Vec<usize>, PhomoError>)
        ensures
            res matches Ok(assignment) ==> is_matching(
                distance_matrix@.tile(old(self).config.max_tile_occurrences),
                assignment@,
            ),
            res matches Ok(assignment) ==> cheapest(
                distance_matrix@,
                old(self).config.max_tile_occurrences as int,
                assignment@,
            ),
    {
        match check_input(&self.config, distance_matrix) {
            Err(e) => {
                return Err(PhomoError::SolverError(e));
            },
            Ok(_) => {},
        }
        let repeats = self.config.max_tile_occurrences;
        let ghost m = distance_matrix@;
        proof {
            assert(distance_matrix.data.len() == m.data.len());
            assert(m.columns * repeats <= m.rows * m.columns * repeats) by (nonlinear_arith)
                requires
                    m.rows >= 1,
                    m.columns >= 0,
                    repeats >= 0,
            ;
            assert(m.rows <= m.rows * repeats) by (nonlinear_arith)
                requires
                    repeats >= 1,
                    m.rows >= 0,
            ;
            assert(m.columns <= m.columns * repeats) by (nonlinear_arith)
                requires
                    repeats >= 1,
                    m.columns >= 0,
            ;
            lemma_tile_bounded(m, repeats);
            lemma_tile_once(m);
        }
        let found = if repeats > 1 {
            let tiled = distance_matrix.tile(repeats);
            lsap::solve(&tiled)
        } else {
            lsap::solve(distance_matrix)
        };
        match found {
            Ok(assignment) => {
                proof {
                    lemma_tiled_optimum(m, repeats, assignment@);
                }
                Ok(assignment)
            },
            Err(e) => Err(PhomoError::SolverError(SolverError::HungarianError(e))),
        }
    }
}

/// The exact solver's assignment costs no more than any assignment that
/// uses no tile more often than allowed, whichever solver found it.
pub proof fn lemma_exact_costs_least(m: Costs, limit: int, exact: Seq<usize>, other: Seq<usize>)
    requires
        cheapest(m, limit, exact),
        is_assignment(m, limit, other),
    ensures
        total_cost(m, exact) <= total_cost(m, other),
{
}

} // verus!
