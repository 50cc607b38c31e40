//! The mosaic: a master image, the tiles, and what is built from them.

use crate::blueprint::blank;
use crate::blueprint::painted;
use crate::blueprint::placeable;
use crate::blueprint::views;
use crate::blueprint::Blueprint;
use crate::blueprint::Cell;
use crate::buffer::copy_from;
use crate::buffer::lemma_blit_sample;
use crate::buffer::lemma_filled_sample;
use crate::buffer::Pixels;
use crate::buffer::RgbBuffer;
use crate::distance_matrix::Costs;
use crate::distance_matrix::DistanceMatrix;
use crate::error::MosaicError;
use crate::error::PhomoError;
use crate::distance_matrix::lemma_cell_index;
use crate::master::cropped_to_grid;
use crate::master::Master;
use crate::metrics::l1;
use crate::metrics::norm_l1;
use crate::solvers::hungarian::Hungarian;
use crate::solvers::refusal;
use crate::solvers::Solve;
use crate::solvers::SolverConfig;
use vstd::arithmetic::div_mod::lemma_fundamental_div_mod;
use vstd::arithmetic::div_mod::lemma_mod_pos_bound;
use vstd::prelude::*;

verus! {

/// A master image with the tiles that are to reproduce it.
#[derive(Debug)]
pub struct Mosaic {
    /// The image to reproduce, cut into cells.
    pub master: Master,
    /// The tiles. Each has the size of a cell.
    pub tiles: Vec<RgbBuffer>,
    /// The number of cells in a row and in a column.
    pub grid_size: (u32, u32),
}

/// The first of the first `n` images whose dimensions are not `size`; `n`
/// where all have them.
pub open spec fn first_other_size(images: Seq<Pixels>, size: (u32, u32), n: nat) -> int
    decreases n,
{
    if n == 0 {
        0
    } else {
        let before = first_other_size(images, size, (n - 1) as nat);
        if before < n - 1 {
            before
        } else if (images[n - 1].width, images[n - 1].height) == size {
            n as int
        } else {
            n - 1
        }
    }
}

/// Once an image of another size is found, looking at more images changes
/// nothing.
pub proof fn lemma_first_other_size_stays(images: Seq<Pixels>, size: (u32, u32), n1: nat, n2: nat)
    requires
        n1 <= n2,
        first_other_size(images, size, n1) < n1,
    ensures
        first_other_size(images, size, n2) == first_other_size(images, size, n1),
    decreases n2 - n1,
{
    if n1 < n2 {
        lemma_first_other_size_stays(images, size, n1, (n2 - 1) as nat);
    }
}

/// A row and a column of a grid of cells lie within the image that the grid
/// covers.
pub proof fn lemma_cell_place(
    i: int,
    grid_width: int,
    grid_height: int,
    cell_width: int,
    cell_height: int,
)
    requires
        0 <= i < grid_width * grid_height,
        0 < grid_width,
        0 <= cell_width,
        0 <= cell_height,
    ensures
        0 <= i % grid_width < grid_width,
        0 <= i / grid_width < grid_height,
        0 <= (i % grid_width) * cell_width,
        (i % grid_width) * cell_width + cell_width <= grid_width * cell_width,
        0 <= (i / grid_width) * cell_height,
        (i / grid_width) * cell_height + cell_height <= grid_height * cell_height,
{
    lemma_fundamental_div_mod(i, grid_width);
    lemma_mod_pos_bound(i, grid_width);
    let q = i / grid_width;
    let r = i % grid_width;
    assert(0 <= q < grid_height) by (nonlinear_arith)
        requires
            i == grid_width * q + r,
            0 <= r < grid_width,
            0 <= i < grid_width * grid_height,
    ;
    assert(0 <= r * cell_width && r * cell_width + cell_width <= grid_width * cell_width) by (nonlinear_arith)
        requires
            0 <= r,
            r + 1 <= grid_width,
            0 <= cell_width,
    ;
    assert(0 <= q * cell_height && q * cell_height + cell_height <= grid_height * cell_height) by (nonlinear_arith)
        requires
            0 <= q,
            q + 1 <= grid_height,
            0 <= cell_height,
    ;
}

impl Mosaic {
    /// The master is cut into the mosaic's grid and every tile has the size
    /// of a cell.
    pub open spec fn wf(&self) -> bool {
        &&& self.master.wf()
        &&& self.grid_size == self.master.grid_size
        &&& forall|t: int|
            0 <= t < self.tiles@.len() ==> (#[trigger] self.tiles@[t]).wf() && (
            self.tiles@[t]@.width,
            self.tiles@[t]@.height,
        ) == self.master.cell_size
    }

    /// Where the tile of cell `i` goes when the cell is assigned `column`:
    /// tile `column % tiles`, at column `i % grid_width` and row
    /// `i / grid_width` of the grid.
    pub open spec fn placement(&self, i: int, column: usize) -> Cell {
        Cell {
            tile_index: (column as int % (self.tiles@.len() as int)) as usize,
            x: ((i % (self.grid_size.0 as int)) * self.master.cell_size.0) as u32,
            y: ((i / (self.grid_size.0 as int)) * self.master.cell_size.1) as u32,
        }
    }

    /// The places of all tiles under `assignments`.
    pub open spec fn placements(&self, assignments: Seq<usize>) -> Seq<Cell> {
        Seq::new(assignments.len(), |i: int| self.placement(i, assignments[i]))
    }

    /// The mosaic image under `assignments`: on a canvas of the size of the
    /// master image, all samples zero, the tile of every cell is copied to
    /// the cell's place, cell after cell.
    pub open spec fn rendered(&self, assignments: Seq<usize>) -> Pixels {
        painted(
            blank(self.master.img@.width, self.master.img@.height),
            self.placements(assignments),
            views(self.tiles@),
            assignments.len(),
        )
    }

    /// Every placement of a well-formed mosaic with tiles can be carried out.
    pub proof fn lemma_placement_fits(&self, i: int, column: usize)
        requires
            self.wf(),
            self.tiles@.len() > 0,
            0 <= i < self.master.cells@.len(),
        ensures
            placeable(
                self.master.img@.width,
                self.master.img@.height,
                self.placement(i, column),
                views(self.tiles@),
            ),
            self.placement(i, column).x == (i % (self.grid_size.0 as int))
                * self.master.cell_size.0,
            self.placement(i, column).y == (i / (self.grid_size.0 as int))
                * self.master.cell_size.1,
            self.placement(i, column).tile_index == column as int % (self.tiles@.len() as int),
    {
        let cell = self.placement(i, column);
        lemma_cell_place(
            i,
            self.grid_size.0 as int,
            self.grid_size.1 as int,
            self.master.cell_size.0 as int,
            self.master.cell_size.1 as int,
        );
        lemma_mod_pos_bound(column as int, self.tiles@.len() as int);
        vstd::arithmetic::div_mod::lemma_mod_decreases(column as nat, self.tiles@.len());
        let t = cell.tile_index as int;
        assert(self.tiles@[t].wf());
        assert(views(self.tiles@)[t] == self.tiles@[t]@);
    }

    /// Cuts `master_img` into the grid and joins it with `tiles`.
    ///
    /// Fails with the first tile that does not have the size of a cell.
    pub fn from_images(master_img: RgbBuffer, tiles: Vec<RgbBuffer>, grid_size: (u32, u32)) -> (res:
        Result<Self, PhomoError>)
        requires
            master_img.wf(),
            grid_size.0 > 0,
            grid_size.1 > 0,
            grid_size.0 * grid_size.1 <= usize::MAX,
            forall|t: int| 0 <= t < tiles.len() ==> (#[trigger] tiles[t]).wf(),
        ensures
            ({
                let cell_size = (
                    (master_img@.width / grid_size.0) as u32,
                    (master_img@.height / grid_size.1) as u32,
                );
                let odd = first_other_size(views(tiles@), cell_size, tiles@.len());
                if odd == tiles@.len() {
                    res matches Ok(mosaic) && mosaic.wf() && mosaic.tiles == tiles
                        && mosaic.grid_size == grid_size && mosaic.master.cell_size == cell_size
                        && mosaic.master.img@ == cropped_to_grid(master_img@, grid_size)
                } else {
                    res matches Err(
                        PhomoError::MosaicError(MosaicError::TileSizeMismatch { expected, found }),
                    ) && expected == cell_size && found == (
                        tiles@[odd]@.width,
                        tiles@[odd]@.height,
                    )
                }
            }),
    {
        match Master::from_image(master_img, grid_size) {
            Ok(master) => Self::new(master, tiles, grid_size),
            Err(e) => Err(e),
        }
    }

    /// Joins `master` with `tiles`.
    ///
    /// Fails with the first tile that does not have the size of a cell.
    pub fn new(master: Master, tiles: Vec<RgbBuffer>, grid_size: (u32, u32)) -> (res: Result<
        Self,
        PhomoError,
    >)
        requires
            master.wf(),
            forall|t: int| 0 <= t < tiles.len() ==> (#[trigger] tiles[t]).wf(),
        ensures
            ({
                let odd = first_other_size(views(tiles@), master.cell_size, tiles@.len());
                if odd == tiles@.len() {
                    res matches Ok(mosaic) && mosaic.master == master && mosaic.tiles == tiles
                        && mosaic.grid_size == grid_size && (grid_size == master.grid_size
                        ==> mosaic.wf())
                } else {
                    res matches Err(
                        PhomoError::MosaicError(MosaicError::TileSizeMismatch { expected, found }),
                    ) && expected == master.cell_size && found == (
                        tiles@[odd]@.width,
                        tiles@[odd]@.height,
                    )
                }
            }),
    {
        let ghost shown = views(tiles@);
        let mut t: usize = 0;
        while t < tiles.len()
            invariant
                t <= tiles.len(),
                shown == views(tiles@),
                first_other_size(shown, master.cell_size, t as nat) == t,
                forall|i: int|
                    0 <= i < t ==> ((#[trigger] tiles@[i])@.width, tiles@[i]@.height)
                        == master.cell_size,
            decreases tiles.len() - t,
        {
            let found = tiles[t].dimensions();
            proof {
                assert(shown[t as int] == tiles@[t as int]@);
            }
            if found.0 != master.cell_size.0 || found.1 != master.cell_size.1 {
                proof {
                    assert(first_other_size(shown, master.cell_size, (t + 1) as nat) == t);
                    lemma_first_other_size_stays(
                        shown,
                        master.cell_size,
                        (t + 1) as nat,
                        tiles@.len(),
                    );
                }
                return Err(
                    PhomoError::MosaicError(
                        MosaicError::TileSizeMismatch { expected: master.cell_size, found },
                    ),
                );
            }
            t += 1;
        }
        Ok(Self { master, tiles, grid_size })
    }

    /// The costs of all pairs of a cell and a tile under the sum of
    /// absolute differences: rows are cells, columns are tiles.
    pub fn distance_matrix(&self) -> (costs: DistanceMatrix)
        requires
            self.wf(),
            self.master.cells.len() * self.tiles.len() <= usize::MAX,
            255 * (3 * self.master.cell_size.0 * self.master.cell_size.1) <= i64::MAX,
        ensures
            costs.rows == self.master.cells.len(),
            costs.columns == self.tiles.len(),
            costs.data.len() == costs.rows * costs.columns,
            forall|r: int, c: int|
                0 <= r < costs.rows && 0 <= c < costs.columns ==> #[trigger] costs@.cost(r, c)
                    == l1(self.tiles[c]@, self.master.cells[r]@),
    {
        proof {
            assert forall|r: int, c: int|
                0 <= r < self.master.cells.len() && 0 <= c < self.tiles.len() implies call_requires(
                norm_l1,
                (#[trigger] &self.tiles[c], #[trigger] &self.master.cells[r]),
            ) by {
                assert(self.tiles@[c].wf());
                assert(self.master.cells@[r].wf());
            }
        }
        let costs = self.distance_matrix_with_metric(norm_l1);
        proof {
            assert forall|r: int, c: int|
                0 <= r < costs.rows && 0 <= c < costs.columns implies #[trigger] costs@.cost(r, c)
                == l1(self.tiles[c]@, self.master.cells[r]@) by {
                assert(call_ensures(
                    norm_l1,
                    (&self.tiles[c], &self.master.cells[r]),
                    costs.data[r * costs.columns + c],
                ));
            }
        }
        costs
    }

    /// `costs` holds, for every cell and tile, what `metric` returned for
    /// the tile and the cell: rows are cells, columns are tiles.
    pub open spec fn is_costs_of<F: Fn(&RgbBuffer, &RgbBuffer) -> i64>(
        &self,
        metric: F,
        costs: DistanceMatrix,
    ) -> bool {
        &&& costs.rows == self.master.cells.len()
        &&& costs.columns == self.tiles.len()
        &&& costs.data.len() == costs.rows * costs.columns
        &&& forall|r: int, c: int|
            0 <= r < costs.rows && 0 <= c < costs.columns ==> call_ensures(
                metric,
                (&self.tiles[c], &self.master.cells[r]),
                #[trigger] costs.data[r * costs.columns + c],
            )
    }

    /// The costs of all pairs of a cell and a tile under `metric`, which is
    /// called once for every pair, with the tile first.
    pub fn distance_matrix_with_metric<F: Fn(&RgbBuffer, &RgbBuffer) -> i64>(
        &self,
        metric: F,
    ) -> (costs: DistanceMatrix)
        requires
            self.wf(),
            self.master.cells.len() * self.tiles.len() <= usize::MAX,
            forall|r: int, c: int|
                0 <= r < self.master.cells.len() && 0 <= c < self.tiles.len() ==> call_requires(
                    metric,
                    (#[trigger] &self.tiles[c], #[trigger] &self.master.cells[r]),
                ),
        ensures
            self.is_costs_of(metric, costs),
    {
        let rows = self.master.cells.len();
        let columns = self.tiles.len();
        let mut data: Vec<i64> = Vec::new();
        let mut r: usize = 0;
        while r < rows
            invariant
                rows == self.master.cells.len(),
                columns == self.tiles.len(),
                rows * columns <= usize::MAX,
                forall|r: int, c: int|
                    0 <= r < self.master.cells.len() && 0 <= c < self.tiles.len()
                        ==> call_requires(
                        metric,
                        (#[trigger] &self.tiles[c], #[trigger] &self.master.cells[r]),
                    ),
                r <= rows,
                data.len() == r * columns,
                forall|i: int, c: int|
                    0 <= i < r && 0 <= c < columns ==> call_ensures(
                        metric,
                        (&self.tiles[c], &self.master.cells[i]),
                        #[trigger] data@[i * columns + c],
                    ),
            decreases rows - r,
        {
            let cell = &self.master.cells[r];
            let mut c: usize = 0;
            while c < columns
                invariant
                    rows == self.master.cells.len(),
                    columns == self.tiles.len(),
                    rows * columns <= usize::MAX,
                    forall|r: int, c: int|
                        0 <= r < self.master.cells.len() && 0 <= c < self.tiles.len()
                            ==> call_requires(
                            metric,
                            (#[trigger] &self.tiles[c], #[trigger] &self.master.cells[r]),
                        ),
                    r < rows,
                    cell == &self.master.cells[r as int],
                    c <= columns,
                    data.len() == r * columns + c,
                    forall|i: int, k: int|
                        0 <= i < r && 0 <= k < columns ==> call_ensures(
                            metric,
                            (&self.tiles[k], &self.master.cells[i]),
                            #[trigger] data@[i * columns + k],
                        ),
                    forall|k: int|
                        0 <= k < c ==> call_ensures(
                            metric,
                            (&self.tiles[k], &self.master.cells[r as int]),
                            #[trigger] data@[r * columns + k],
                        ),
                decreases columns - c,
            {
                let tile = &self.tiles[c];
                proof {
                    assert(call_requires(
                        metric,
                        (&self.tiles[c as int], &self.master.cells[r as int]),
                    ));
                    lemma_cell_index(rows as int, columns as int, r as int, c as int);
                }
                let ghost before = data@;
                let distance = metric(tile, cell);
                data.push(distance);
                proof {
                    assert forall|i: int, k: int| 0 <= i < r && 0 <= k < columns implies call_ensures(
                        metric,
                        (&self.tiles[k], &self.master.cells[i]),
                        #[trigger] data@[i * columns + k],
                    ) by {
                        lemma_cell_index(r as int, columns as int, i, k);
                        assert(data@[i * columns + k] == before[i * columns + k]);
                    }
                    assert forall|k: int| 0 <= k < c + 1 implies call_ensures(
                        metric,
                        (&self.tiles[k], &self.master.cells[r as int]),
                        #[trigger] data@[r * columns + k],
                    ) by {
                        if k < c {
                            assert(data@[r * columns + k] == before[r * columns + k]);
                        }
                    }
                }
                c += 1;
            }
            proof {
                assert((r + 1) * columns == r * columns + columns) by (nonlinear_arith);
            }
            r += 1;
        }
        DistanceMatrix { rows, columns, data }
    }

    /// Tests that `distance_matrix` has a row for every cell and a column
    /// for every tile.
    pub fn check_distance_matrix(&self, distance_matrix: &DistanceMatrix) -> (res: Result<
        (),
        PhomoError,
    >)
        ensures
            self.shape_matches(distance_matrix@) ==> res is Ok,
            !self.shape_matches(distance_matrix@) ==> (res matches Err(
                PhomoError::MosaicError(
                    MosaicError::DistanceMatrixSizeMismatch { expected, found },
                ),
            ) && expected == (self.master.cells.len(), self.tiles.len()) && found == (
                distance_matrix.rows,
                distance_matrix.columns,
            )),
    {
        if distance_matrix.rows != self.master.cells.len() || distance_matrix.columns
            < self.tiles.len() {
            return Err(
                PhomoError::MosaicError(
                    MosaicError::DistanceMatrixSizeMismatch {
                        expected: (self.master.cells.len(), self.tiles.len()),
                        found: (distance_matrix.rows, distance_matrix.columns),
                    },
                ),
            );
        }
        Ok(())
    }

    /// `m` has a row for every cell and a column for every tile.
    pub open spec fn shape_matches(&self, m: Costs) -> bool {
        m.rows == self.master.cells.len() && m.columns >= self.tiles.len()
    }
}

impl Mosaic {
    /// Why `assignments` cannot be turned into places for tiles, if they
    /// cannot: there is not one assignment per cell, or there is no tile.
    pub open spec fn plan_failure(&self, assignments: Seq<usize>) -> Option<PhomoError> {
        if assignments.len() != self.master.cells@.len() {
            Some(
                PhomoError::MosaicError(
                    MosaicError::InvalidAssignmentsLength {
                        expected: self.master.cells@.len() as usize,
                        found: assignments.len() as usize,
                    },
                ),
            )
        } else if self.tiles@.len() == 0 {
            Some(PhomoError::MosaicError(MosaicError::InvalidTileIndex(assignments[0])))
        } else {
            None
        }
    }

    /// Why no solver is run on `m`, or why a solver with `config` refuses
    /// it, if that is so: the matrix does not have a row for every cell and
    /// a column for every tile, or the solver refuses.
    pub open spec fn solve_failure(&self, m: Costs, config: SolverConfig) -> Option<PhomoError> {
        if !self.shape_matches(m) {
            Some(
                PhomoError::MosaicError(
                    MosaicError::DistanceMatrixSizeMismatch {
                        expected: (self.master.cells@.len() as usize, self.tiles@.len() as usize),
                        found: (m.rows, m.columns),
                    },
                ),
            )
        } else {
            match refusal(config, m) {
                Some(e) => Some(PhomoError::SolverError(e)),
                None => None,
            }
        }
    }

    /// Why the tiles cannot fill the grid even when each is used as often
    /// as `config` allows, if that is so.
    pub open spec fn tiles_failure(&self, config: SolverConfig) -> Option<PhomoError> {
        if config.max_tile_occurrences > 0 && self.tiles@.len() * config.max_tile_occurrences
            < self.master.cells@.len() {
            Some(
                PhomoError::MosaicError(
                    MosaicError::InsufficientTiles {
                        provided: self.tiles@.len() as usize,
                        required: self.master.cells@.len() as usize,
                        max_occurrences: config.max_tile_occurrences,
                    },
                ),
            )
        } else {
            None
        }
    }

    /// What building an image owes, once the tiles are known to suffice:
    /// the failure where there is one, and otherwise the mosaic image under
    /// the solver's assignment.
    pub open spec fn image_built(
        &self,
        m: Costs,
        config: SolverConfig,
        assignment: Seq<usize>,
        res: Result<RgbBuffer, PhomoError>,
    ) -> bool {
        match self.solve_failure(m, config) {
            Some(e) => res matches Err(found) && found == e,
            None => match self.plan_failure(assignment) {
                Some(e) => res matches Err(found) && found == e,
                None => res matches Ok(out) && out.wf() && out@ == self.rendered(assignment),
            },
        }
    }

    /// What building a plan owes, once the tiles are known to suffice: the
    /// failure where there is one, and otherwise the places of the tiles
    /// under the solver's assignment.
    pub open spec fn plan_built(
        &self,
        m: Costs,
        config: SolverConfig,
        assignment: Seq<usize>,
        res: Result<Blueprint, PhomoError>,
    ) -> bool {
        match self.solve_failure(m, config) {
            Some(e) => res matches Err(found) && found == e,
            None => match self.plan_failure(assignment) {
                Some(e) => res matches Err(found) && found == e,
                None => res matches Ok(plan) && self.is_plan(assignment, plan),
            },
        }
    }

    /// `plan` holds the places of the tiles under `assignments` and the
    /// dimensions of the mosaic's cells and grid.
    pub open spec fn is_plan(&self, assignments: Seq<usize>, plan: Blueprint) -> bool {
        &&& plan.cells@ == self.placements(assignments)
        &&& plan.cell_width == self.master.cell_size.0
        &&& plan.cell_height == self.master.cell_size.1
        &&& plan.grid_width == self.grid_size.0
        &&& plan.grid_height == self.grid_size.1
    }

    /// Where the tile of cell `cell_idx` goes when it is assigned `column`.
    fn place(&self, cell_idx: usize, column: usize) -> (cell: Cell)
        requires
            self.wf(),
            self.tiles.len() > 0,
            cell_idx < self.master.cells.len(),
        ensures
            cell == self.placement(cell_idx as int, column),
            placeable(self.master.img@.width, self.master.img@.height, cell, views(self.tiles@)),
    {
        proof {
            self.lemma_placement_fits(cell_idx as int, column);
            lemma_cell_place(
                cell_idx as int,
                self.grid_size.0 as int,
                self.grid_size.1 as int,
                self.master.cell_size.0 as int,
                self.master.cell_size.1 as int,
            );
        }
        let grid_width = self.grid_size.0 as usize;
        let (cell_width, cell_height) = self.master.cell_size;
        let x = (cell_idx % grid_width) as u32 * cell_width;
        let y = (cell_idx / grid_width) as u32 * cell_height;
        Cell { tile_index: column % self.tiles.len(), x, y }
    }

    /// Tests that there is one assignment per cell and at least one tile.
    fn check_assignments(&self, assignments: &Vec<usize>) -> (res: Result<(), PhomoError>)
        requires
            self.wf(),
        ensures
            match self.plan_failure(assignments@) {
                Some(e) => res matches Err(found) && found == e,
                None => res is Ok,
            },
    {
        if assignments.len() != self.master.cells.len() {
            return Err(
                PhomoError::MosaicError(
                    MosaicError::InvalidAssignmentsLength {
                        expected: self.master.cells.len(),
                        found: assignments.len(),
                    },
                ),
            );
        }
        if self.tiles.len() == 0 {
            proof {
                assert(self.master.cells@.len() > 0) by (nonlinear_arith)
                    requires
                        self.master.cells@.len() == self.master.grid_size.0
                            * self.master.grid_size.1,
                        self.master.grid_size.0 > 0,
                        self.master.grid_size.1 > 0,
                ;
            }
            return Err(PhomoError::MosaicError(MosaicError::InvalidTileIndex(assignments[0])));
        }
        Ok(())
    }

    /// Turns `assignments` into a plan: for every cell the tile it shows
    /// and the place of the cell.
    pub fn blueprint(&self, assignments: &Vec<usize>) -> (res: Result<Blueprint, PhomoError>)
        requires
            self.wf(),
        ensures
            match self.plan_failure(assignments@) {
                Some(e) => res matches Err(found) && found == e,
                None => res matches Ok(plan) && self.is_plan(assignments@, plan),
            },
    {
        match self.check_assignments(assignments) {
            Err(e) => {
                return Err(e);
            },
            Ok(_) => {},
        }
        let mut cells: Vec<Cell> = Vec::new();
        let mut cell_idx: usize = 0;
        while cell_idx < assignments.len()
            invariant
                self.wf(),
                self.tiles.len() > 0,
                assignments.len() == self.master.cells.len(),
                cell_idx <= assignments.len(),
                cells.len() == cell_idx,
                forall|i: int|
                    0 <= i < cell_idx ==> #[trigger] cells@[i] == self.placement(
                        i,
                        assignments@[i],
                    ),
            decreases assignments.len() - cell_idx,
        {
            let cell = self.place(cell_idx, assignments[cell_idx]);
            cells.push(cell);
            cell_idx += 1;
        }
        proof {
            assert(cells@ =~= self.placements(assignments@));
        }
        Ok(
            Blueprint {
                cells,
                cell_width: self.master.cell_size.0,
                cell_height: self.master.cell_size.1,
                grid_width: self.grid_size.0,
                grid_height: self.grid_size.1,
            },
        )
    }

    /// Assembles the mosaic image under `assignments`: the tile of every
    /// cell is copied to the cell's place on a canvas of the size of the
    /// master image.
    pub fn render(&self, assignments: Vec<usize>) -> (res: Result<RgbBuffer, PhomoError>)
        requires
            self.wf(),
        ensures
            match self.plan_failure(assignments@) {
                Some(e) => res matches Err(found) && found == e,
                None => res matches Ok(out) && out.wf() && out@ == self.rendered(assignments@),
            },
    {
        match self.check_assignments(&assignments) {
            Err(e) => {
                return Err(e);
            },
            Ok(_) => {},
        }
        proof {
            self.master.img.lemma_data_len();
        }
        let width = self.master.img.width();
        let height = self.master.img.height();
        let mut mosaic_img = RgbBuffer::new(width, height);
        let ghost canvas = blank(width, height);
        let ghost places = self.placements(assignments@);
        let ghost shown = views(self.tiles@);
        let mut cell_idx: usize = 0;
        while cell_idx < assignments.len()
            invariant
                self.wf(),
                self.tiles.len() > 0,
                assignments.len() == self.master.cells.len(),
                width == self.master.img@.width,
                height == self.master.img@.height,
                canvas == blank(width, height),
                places == self.placements(assignments@),
                shown == views(self.tiles@),
                cell_idx <= assignments.len(),
                mosaic_img.wf(),
                mosaic_img@ == painted(canvas, places, shown, cell_idx as nat),
            decreases assignments.len() - cell_idx,
        {
            let cell = self.place(cell_idx, assignments[cell_idx]);
            let tile = &self.tiles[cell.tile_index];
            proof {
                crate::blueprint::lemma_painted_dimensions(canvas, places, shown, cell_idx as nat);
                assert(shown[cell.tile_index as int] == tile@);
                assert(places[cell_idx as int] == cell);
                assert(self.tiles@[cell.tile_index as int].wf());
            }
            match copy_from(&mut mosaic_img, tile, cell.x, cell.y) {
                Ok(_) => {},
                Err(e) => {
                    return Err(PhomoError::ImageError(e));
                },
            }
            cell_idx += 1;
        }
        Ok(mosaic_img)
    }

    /// Tests whether the tiles can fill the grid when each is used as often
    /// as `config` allows.
    fn check_tiles(&self, config: &SolverConfig) -> (res: Result<(), PhomoError>)
        ensures
            match self.tiles_failure(*config) {
                Some(e) => res matches Err(found) && found == e,
                None => res is Ok,
            },
    {
        if config.max_tile_occurrences == 0 {
            return Ok(());
        }
        proof {
            assert(self.tiles.len() == self.tiles@.len());
            assert(self.master.cells.len() == self.master.cells@.len());
        }
        let enough = match self.tiles.len().checked_mul(config.max_tile_occurrences) {
            Some(places) => places >= self.master.cells.len(),
            None => true,
        };
        if enough {
            Ok(())
        } else {
            Err(
                PhomoError::MosaicError(
                    MosaicError::InsufficientTiles {
                        provided: self.tiles.len(),
                        required: self.master.cells.len(),
                        max_occurrences: config.max_tile_occurrences,
                    },
                ),
            )
        }
    }

    /// Assigns tiles to cells with the exact solver and assembles the
    /// mosaic image.
    pub fn build(&self, distance_matrix: DistanceMatrix, config: SolverConfig) -> (res: Result<
        RgbBuffer,
        PhomoError,
    >)
        requires
            self.wf(),
            self.tiles_failure(config) is None && self.solve_failure(distance_matrix@, config)
                is None ==> distance_matrix.wf() && (Hungarian { config }).accepts(
                distance_matrix@,
            ),
        ensures
            match self.tiles_failure(config) {
                Some(e) => res matches Err(found) && found == e,
                None => self.image_built(
                    distance_matrix@,
                    config,
                    (Hungarian { config }).assignment(distance_matrix@),
                    res,
                ),
            },
    {
        match self.check_tiles(&config) {
            Err(e) => {
                return Err(e);
            },
            Ok(_) => {},
        }
        let solver = Hungarian::new(config);
        self.build_with_solver(distance_matrix, solver)
    }

    /// Assigns tiles to cells with `solver` and assembles the mosaic image.
    pub fn build_with_solver<S: Solve>(&self, distance_matrix: DistanceMatrix, solver: S) -> (res:
        Result<RgbBuffer, PhomoError>)
        requires
            self.wf(),
            self.solve_failure(distance_matrix@, solver.config()) is None
                ==> distance_matrix.wf() && solver.accepts(distance_matrix@),
        ensures
            self.image_built(
                distance_matrix@,
                solver.config(),
                solver.assignment(distance_matrix@),
                res,
            ),
    {
        let mut solver = solver;
        match self.check_distance_matrix(&distance_matrix) {
            Err(e) => {
                return Err(e);
            },
            Ok(_) => {},
        }
        let assignments = match distance_matrix.assignments(&mut solver) {
            Ok(assignments) => assignments,
            Err(e) => {
                return Err(e);
            },
        };
        self.render(assignments)
    }

    /// Assigns tiles to cells with the exact solver and plans the mosaic.
    pub fn build_blueprint(&self, distance_matrix: DistanceMatrix, config: SolverConfig) -> (res:
        Result<Blueprint, PhomoError>)
        requires
            self.wf(),
            self.tiles_failure(config) is None && self.solve_failure(distance_matrix@, config)
                is None ==> distance_matrix.wf() && (Hungarian { config }).accepts(
                distance_matrix@,
            ),
        ensures
            match self.tiles_failure(config) {
                Some(e) => res matches Err(found) && found == e,
                None => self.plan_built(
                    distance_matrix@,
                    config,
                    (Hungarian { config }).assignment(distance_matrix@),
                    res,
                ),
            },
    {
        match self.check_tiles(&config) {
            Err(e) => {
                return Err(e);
            },
            Ok(_) => {},
        }
        let solver = Hungarian::new(config);
        self.build_blueprint_with_solver(distance_matrix, solver)
    }

    /// Assigns tiles to cells with `solver` and plans the mosaic.
    pub fn build_blueprint_with_solver<S: Solve>(
        &self,
        distance_matrix: DistanceMatrix,
        solver: S,
    ) -> (res: Result<Blueprint, PhomoError>)
        requires
            self.wf(),
            self.solve_failure(distance_matrix@, solver.config()) is None
                ==> distance_matrix.wf() && solver.accepts(distance_matrix@),
        ensures
            self.plan_built(
                distance_matrix@,
                solver.config(),
                solver.assignment(distance_matrix@),
                res,
            ),
    {
        let mut solver = solver;
        match self.check_distance_matrix(&distance_matrix) {
            Err(e) => {
                return Err(e);
            },
            Ok(_) => {},
        }
        let assignments = match distance_matrix.assignments(&mut solver) {
            Ok(assignments) => assignments,
            Err(e) => {
                return Err(e);
            },
        };
        self.blueprint(&assignments)
    }

    /// Rendering the plan of an assignment gives, pixel for pixel, the image
    /// that is assembled from the assignment directly.
    pub proof fn lemma_plan_renders_the_mosaic(&self, assignments: Seq<usize>, plan: Blueprint)
        requires
            self.wf(),
            self.is_plan(assignments, plan),
        ensures
            plan.rendered(self.master.img@.width, self.master.img@.height, views(self.tiles@))
                == self.rendered(assignments),
    {
    }
}

/// A coordinate lies in the cell with a given number exactly when that
/// number is the coordinate divided by the cell size.
pub proof fn lemma_within_cell(at: int, size: int, number: int)
    requires
        0 <= at,
        0 < size,
        0 <= number,
    ensures
        (number * size <= at < number * size + size) <==> at / size == number,
        at / size == number ==> at - number * size == at % size,
{
    lemma_fundamental_div_mod(at, size);
    lemma_mod_pos_bound(at, size);
    let q = at / size;
    assert(size * q == q * size) by (nonlinear_arith);
    if number * size <= at < number * size + size {
        assert(q == number) by (nonlinear_arith)
            requires
                at == q * size + at % size,
                0 <= at % size < size,
                number * size <= at < number * size + size,
        ;
    }
}

/// Row and column of a grid determine the number of the cell, and the
/// number determines them.
pub proof fn lemma_cell_number(number: int, grid_width: int, row: int, column: int)
    requires
        0 < grid_width,
        0 <= column < grid_width,
        0 <= row,
        0 <= number,
    ensures
        row * grid_width + column == number <==> (number / grid_width == row && number
            % grid_width == column),
{
    lemma_fundamental_div_mod(number, grid_width);
    lemma_mod_pos_bound(number, grid_width);
    if row * grid_width + column == number {
        vstd::arithmetic::div_mod::lemma_fundamental_div_mod_converse(
            number,
            grid_width,
            row,
            column,
        );
    }
    assert(grid_width * (number / grid_width) == (number / grid_width) * grid_width) by (nonlinear_arith);
}

impl Mosaic {
    /// The number of the cell that the pixel at `(px, py)` lies in.
    pub open spec fn cell_at(&self, px: int, py: int) -> int {
        (py / (self.master.cell_size.1 as int)) * self.grid_size.0 + px / (
        self.master.cell_size.0 as int)
    }

    /// The pixel that the mosaic shows at `(px, py)` under `assignments`:
    /// that of the tile of the cell there, as far from the tile's corner as
    /// `(px, py)` is from the cell's.
    pub open spec fn shown_sample(&self, assignments: Seq<usize>, px: int, py: int, c: int) -> u8 {
        let cell = self.cell_at(px, py);
        let tile = self.tiles@[assignments[cell] as int % (self.tiles@.len() as int)]@;
        tile.sample(px % (self.master.cell_size.0 as int), py % (self.master.cell_size.1 as int), c)
    }

    /// After the first `n` cells are painted, a pixel in one of them shows
    /// its tile and any other pixel is still blank.
    proof fn lemma_painted_pixel(&self, assignments: Seq<usize>, n: nat, px: int, py: int, c: int)
        requires
            self.wf(),
            self.tiles@.len() > 0,
            assignments.len() == self.master.cells@.len(),
            n <= assignments.len(),
            0 <= px < self.master.img@.width,
            0 <= py < self.master.img@.height,
            0 <= c < 3,
        ensures
            ({
                let canvas = painted(
                    blank(self.master.img@.width, self.master.img@.height),
                    self.placements(assignments),
                    views(self.tiles@),
                    n,
                );
                &&& canvas.wf()
                &&& canvas.width == self.master.img@.width
                &&& canvas.height == self.master.img@.height
                &&& 0 <= self.cell_at(px, py) < assignments.len()
                &&& canvas.sample(px, py, c) == (if self.cell_at(px, py) < n {
                    self.shown_sample(assignments, px, py, c)
                } else {
                    0u8
                })
            }),
        decreases n,
    {
        let width = self.master.img@.width;
        let height = self.master.img@.height;
        let grid_width = self.grid_size.0 as int;
        let grid_height = self.grid_size.1 as int;
        let cell_width = self.master.cell_size.0 as int;
        let cell_height = self.master.cell_size.1 as int;
        let places = self.placements(assignments);
        let shown = views(self.tiles@);
        // The pixel lies in a cell of the grid.
        assert(cell_width > 0 && cell_height > 0) by (nonlinear_arith)
            requires
                width == grid_width * cell_width,
                height == grid_height * cell_height,
                0 <= px < width,
                0 <= py < height,
                grid_width > 0,
                grid_height > 0,
                cell_width >= 0,
                cell_height >= 0,
        ;
        let column = px / cell_width;
        let row = py / cell_height;
        lemma_fundamental_div_mod(px, cell_width);
        lemma_fundamental_div_mod(py, cell_height);
        lemma_mod_pos_bound(px, cell_width);
        lemma_mod_pos_bound(py, cell_height);
        assert(0 <= column < grid_width) by (nonlinear_arith)
            requires
                px == cell_width * column + px % cell_width,
                0 <= px % cell_width < cell_width,
                0 <= px < grid_width * cell_width,
        ;
        assert(0 <= row < grid_height) by (nonlinear_arith)
            requires
                py == cell_height * row + py % cell_height,
                0 <= py % cell_height < cell_height,
                0 <= py < grid_height * cell_height,
        ;
        let cell = self.cell_at(px, py);
        assert(cell == row * grid_width + column);
        assert(0 <= cell < grid_width * grid_height) by (nonlinear_arith)
            requires
                cell == row * grid_width + column,
                0 <= column < grid_width,
                0 <= row < grid_height,
        ;
        if n == 0 {
            lemma_filled_sample(width, height, seq![0u8, 0u8, 0u8], px, py, c);
        } else {
            let last = (n - 1) as int;
            self.lemma_painted_pixel(assignments, (n - 1) as nat, px, py, c);
            self.lemma_placement_fits(last, assignments[last]);
            let before = painted(blank(width, height), places, shown, (n - 1) as nat);
            let place = places[last];
            assert(place == self.placement(last, assignments[last]));
            let tile = shown[place.tile_index as int];
            lemma_blit_sample(before, tile, place.x as int, place.y as int, px, py, c);
            lemma_cell_place(last, grid_width, grid_height, cell_width, cell_height);
            lemma_within_cell(px, cell_width, last % grid_width);
            lemma_within_cell(py, cell_height, last / grid_width);
            lemma_cell_number(last, grid_width, row, column);
            assert(tile == self.tiles@[place.tile_index as int]@);
            assert(tile.width == cell_width && tile.height == cell_height);
        }
    }

    /// The mosaic image shows, pixel for pixel, the tiles of the cells: the
    /// pixel at `(px, py)` is that of the tile assigned to the cell there,
    /// taken as far from the tile's corner as `(px, py)` is from the cell's.
    pub proof fn lemma_rendered_pixel(&self, assignments: Seq<usize>, px: int, py: int, c: int)
        requires
            self.wf(),
            self.tiles@.len() > 0,
            assignments.len() == self.master.cells@.len(),
            0 <= px < self.master.img@.width,
            0 <= py < self.master.img@.height,
            0 <= c < 3,
        ensures
            self.rendered(assignments).sample(px, py, c) == self.shown_sample(
                assignments,
                px,
                py,
                c,
            ),
    {
        self.lemma_painted_pixel(assignments, assignments.len(), px, py, c);
    }
}

} // verus!
