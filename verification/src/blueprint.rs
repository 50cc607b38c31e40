//! A mosaic that is planned but not yet rendered.

use crate::buffer::copy_from;
use crate::buffer::Pixels;
use crate::buffer::RgbBuffer;
use crate::error::MosaicError;
use crate::error::PhomoError;
use vstd::prelude::*;

verus! {

/// Where one tile goes: the tile and the top left corner of its place.
#[derive(Debug, Clone, Copy, PartialEq, Eq)]
pub struct Cell {
    pub tile_index: usize,
    pub x: u32,
    pub y: u32,
}

/// The plan of a mosaic: a place for a tile for every cell of the grid,
/// and the dimensions of cells and grid. It holds no pixels.
#[derive(Debug, PartialEq, Eq)]
pub struct Blueprint {
    pub cells: Vec<Cell>,
    pub cell_width: u32,
    pub cell_height: u32,
    pub grid_width: u32,
    pub grid_height: u32,
}

/// The images as mathematical values.
pub open spec fn views(images: Seq<RgbBuffer>) -> Seq<Pixels> {
    Seq::new(images.len(), |i: int| images[i]@)
}

/// The image of the given dimensions whose every sample is zero.
pub open spec fn blank(width: u32, height: u32) -> Pixels {
    Pixels::filled(width, height, seq![0u8, 0u8, 0u8])
}

/// The tile of `cell` exists and lies within a canvas of the given
/// dimensions when put at the cell's place.
pub open spec fn placeable(width: u32, height: u32, cell: Cell, tiles: Seq<Pixels>) -> bool {
    &&& cell.tile_index < tiles.len()
    &&& cell.x + tiles[cell.tile_index as int].width <= width
    &&& cell.y + tiles[cell.tile_index as int].height <= height
}

/// The first of the first `n` cells that is not placeable; `n` where all are.
pub open spec fn first_unplaceable(
    width: u32,
    height: u32,
    cells: Seq<Cell>,
    tiles: Seq<Pixels>,
    n: nat,
) -> int
    decreases n,
{
    if n == 0 {
        0
    } else {
        let before = first_unplaceable(width, height, cells, tiles, (n - 1) as nat);
        if before < n - 1 {
            before
        } else if placeable(width, height, cells[n - 1], tiles) {
            n as int
        } else {
            n - 1
        }
    }
}

/// `canvas` after the tiles of the first `n` cells have been copied to
/// their places, one after the other.
pub open spec fn painted(canvas: Pixels, cells: Seq<Cell>, tiles: Seq<Pixels>, n: nat) -> Pixels
    decreases n,
{
    if n == 0 {
        canvas
    } else {
        painted(canvas, cells, tiles, (n - 1) as nat).blit(
            tiles[cells[n - 1].tile_index as int],
            cells[n - 1].x as int,
            cells[n - 1].y as int,
        )
    }
}

/// Painting keeps the dimensions of the canvas.
pub proof fn lemma_painted_dimensions(canvas: Pixels, cells: Seq<Cell>, tiles: Seq<Pixels>, n: nat)
    ensures
        painted(canvas, cells, tiles, n).width == canvas.width,
        painted(canvas, cells, tiles, n).height == canvas.height,
    decreases n,
{
    if n > 0 {
        lemma_painted_dimensions(canvas, cells, tiles, (n - 1) as nat);
    }
}

/// Once a cell is found that is not placeable, looking at more cells
/// changes nothing.
pub proof fn lemma_first_unplaceable_stays(
    width: u32,
    height: u32,
    cells: Seq<Cell>,
    tiles: Seq<Pixels>,
    n1: nat,
    n2: nat,
)
    requires
        n1 <= n2,
        first_unplaceable(width, height, cells, tiles, n1) < n1,
    ensures
        first_unplaceable(width, height, cells, tiles, n2) == first_unplaceable(
            width,
            height,
            cells,
            tiles,
            n1,
        ),
    decreases n2 - n1,
{
    if n1 < n2 {
        lemma_first_unplaceable_stays(width, height, cells, tiles, n1, (n2 - 1) as nat);
    }
}

impl Blueprint {
    /// The image that rendering gives on a canvas of the given dimensions.
    pub open spec fn rendered(&self, width: u32, height: u32, tiles: Seq<Pixels>) -> Pixels {
        painted(blank(width, height), self.cells@, tiles, self.cells@.len())
    }

    /// Renders the plan: on a canvas of the size of `master_img`, all
    /// samples zero, every tile is copied to its place, in the order of the
    /// cells.
    ///
    /// Rendering stops at the first cell whose tile does not exist or does
    /// not lie within the canvas.
    pub fn render(&self, master_img: &RgbBuffer, tiles: &Vec<RgbBuffer>) -> (res: Result<
        RgbBuffer,
        PhomoError,
    >)
        requires
            3 * master_img@.width <= usize::MAX,
            3 * master_img@.width * master_img@.height <= usize::MAX,
            forall|t: int| 0 <= t < tiles.len() ==> (#[trigger] tiles[t]).wf(),
        ensures
            ({
                let width = master_img@.width;
                let height = master_img@.height;
                let bad = first_unplaceable(
                    width,
                    height,
                    self.cells@,
                    views(tiles@),
                    self.cells@.len(),
                );
                if bad == self.cells@.len() {
                    res matches Ok(out) && out.wf() && out@ == self.rendered(
                        width,
                        height,
                        views(tiles@),
                    )
                } else if self.cells@[bad].tile_index >= tiles.len() {
                    res matches Err(PhomoError::MosaicError(MosaicError::InvalidTileIndex(index)))
                        && index == self.cells@[bad].tile_index
                } else {
                    res matches Err(PhomoError::ImageError(_))
                }
            }),
    {
        let width = master_img.width();
        let height = master_img.height();
        let mut mosaic_img = RgbBuffer::new(width, height);
        let ghost shown = views(tiles@);
        let ghost canvas = blank(width, height);
        let mut i: usize = 0;
        while i < self.cells.len()
            invariant
                i <= self.cells.len(),
                shown == views(tiles@),
                width == master_img@.width,
                height == master_img@.height,
                canvas == blank(width, height),
                forall|t: int| 0 <= t < tiles.len() ==> (#[trigger] tiles[t]).wf(),
                mosaic_img.wf(),
                mosaic_img@ == painted(canvas, self.cells@, shown, i as nat),
                first_unplaceable(width, height, self.cells@, shown, i as nat) == i,
            decreases self.cells.len() - i,
        {
            let cell = self.cells[i];
            proof {
                lemma_painted_dimensions(canvas, self.cells@, shown, i as nat);
            }
            if cell.tile_index >= tiles.len() {
                proof {
                    assert(self.cells@[i as int] == cell);
                    assert(!placeable(width, height, cell, shown));
                    assert(first_unplaceable(width, height, self.cells@, shown, (i + 1) as nat)
                        == i);
                    lemma_first_unplaceable_stays(
                        width,
                        height,
                        self.cells@,
                        shown,
                        (i + 1) as nat,
                        self.cells@.len(),
                    );
                }
                return Err(
                    PhomoError::MosaicError(MosaicError::InvalidTileIndex(cell.tile_index)),
                );
            }
            let tile = &tiles[cell.tile_index];
            proof {
                assert(shown[cell.tile_index as int] == tile@);
            }
            match copy_from(&mut mosaic_img, tile, cell.x, cell.y) {
                Ok(_) => {
                    proof {
                        assert(self.cells@[i as int] == cell);
                        assert(placeable(width, height, cell, shown));
                    }
                },
                Err(e) => {
                    proof {
                        assert(self.cells@[i as int] == cell);
                        assert(!placeable(width, height, cell, shown));
                        assert(first_unplaceable(
                            width,
                            height,
                            self.cells@,
                            shown,
                            (i + 1) as nat,
                        ) == i);
                        lemma_first_unplaceable_stays(
                            width,
                            height,
                            self.cells@,
                            shown,
                            (i + 1) as nat,
                            self.cells@.len(),
                        );
                    }
                    return Err(PhomoError::ImageError(e));
                },
            }
            i += 1;
        }
        Ok(mosaic_img)
    }
}

} // verus!
