//! The master image and its grid of cells.

use crate::blueprint::painted;
use crate::blueprint::views;
use crate::blueprint::Cell;
use crate::buffer::copy_from;
use crate::buffer::view;
use crate::buffer::Pixels;
use crate::buffer::RgbBuffer;
use crate::error::MasterError;
use crate::error::PhomoError;
use crate::utils::centered;
use crate::utils::crop_imm_centered;
use vstd::arithmetic::div_mod::lemma_fundamental_div_mod;
use vstd::arithmetic::div_mod::lemma_fundamental_div_mod_converse;
use vstd::prelude::*;

verus! {

/// The image that a mosaic reproduces, cut into a grid of equal cells.
///
/// The cells are listed row after row, each row from left to right: cell
/// `i` stands in column `i % grid_width` of row `i / grid_width`.
#[derive(Debug)]
pub struct Master {
    /// The image, cropped so that the grid covers it exactly.
    pub img: RgbBuffer,
    /// The cells of the grid.
    pub cells: Vec<RgbBuffer>,
    /// Width and height of a cell, in pixels.
    pub cell_size: (u32, u32),
    /// The number of cells in a row and in a column.
    pub grid_size: (u32, u32),
}

/// Cell `i` of the grid over `img`: the cell-sized region in column
/// `i % grid_width` of row `i / grid_width`.
pub open spec fn cell_of(img: Pixels, grid_width: u32, cell_size: (u32, u32), i: int) -> Pixels {
    img.region(
        (i % (grid_width as int)) * cell_size.0,
        (i / (grid_width as int)) * cell_size.1,
        cell_size.0,
        cell_size.1,
    )
}

/// `cells` are the cells of a `grid_size` grid of `cell_size` cells over `img`.
pub open spec fn is_grid_of(
    cells: Seq<RgbBuffer>,
    img: Pixels,
    grid_size: (u32, u32),
    cell_size: (u32, u32),
) -> bool {
    &&& cells.len() == grid_size.0 * grid_size.1
    &&& forall|i: int|
        0 <= i < cells.len() ==> (#[trigger] cells[i]).wf() && cells[i]@ == cell_of(
            img,
            grid_size.0,
            cell_size,
            i,
        )
}

/// `img` with the margin removed that a grid of `grid_size` cells cannot
/// cover, half of it on either side.
pub open spec fn cropped_to_grid(img: Pixels, grid_size: (u32, u32)) -> Pixels {
    let width_extra = img.width % grid_size.0;
    let height_extra = img.height % grid_size.1;
    if width_extra > 0 || height_extra > 0 {
        centered(img, (img.width - width_extra) as u32, (img.height - height_extra) as u32)
    } else {
        img
    }
}

/// Removing the remainder leaves a multiple with the same quotient.
pub proof fn lemma_without_remainder(size: int, parts: int)
    requires
        0 <= size,
        0 < parts,
    ensures
        0 <= size % parts <= size,
        (size - size % parts) % parts == 0,
        (size - size % parts) / parts == size / parts,
        size - size % parts == parts * (size / parts),
{
    lemma_fundamental_div_mod(size, parts);
    let q = size / parts;
    assert(q * parts == parts * q) by (nonlinear_arith);
    lemma_fundamental_div_mod_converse(size - size % parts, parts, q, 0);
    assert(0 <= size % parts <= size) by (nonlinear_arith)
        requires
            size == parts * q + size % parts,
            0 <= size % parts < parts,
            0 <= size,
            0 < parts,
    ;
}

impl Master {
    /// The grid has cells, covers the image exactly, and `cells` are its cells.
    pub open spec fn wf(&self) -> bool {
        &&& self.grid_size.0 > 0
        &&& self.grid_size.1 > 0
        &&& self.img.wf()
        &&& self.img@.width == self.grid_size.0 * self.cell_size.0
        &&& self.img@.height == self.grid_size.1 * self.cell_size.1
        &&& is_grid_of(self.cells@, self.img@, self.grid_size, self.cell_size)
    }

    /// Cuts `img` into a grid of `grid_size.0` by `grid_size.1` cells.
    ///
    /// Where the grid does not divide the image, the image is first cropped
    /// to the largest size that it divides, about its middle.
    pub fn from_image(img: RgbBuffer, grid_size: (u32, u32)) -> (res: Result<Self, PhomoError>)
        requires
            img.wf(),
            grid_size.0 > 0,
            grid_size.1 > 0,
            grid_size.0 * grid_size.1 <= usize::MAX,
        ensures
            res matches Ok(master) && master.wf() && master.grid_size == grid_size
                && master.cell_size == (img@.width / grid_size.0, img@.height / grid_size.1)
                && master.img@ == cropped_to_grid(img@, grid_size),
    {
        let (img_width, img_height) = img.dimensions();
        let (grid_width, grid_height) = grid_size;
        let (cell_width, cell_height) = (img_width / grid_width, img_height / grid_height);
        let (width_extra, height_extra) = (img_width % grid_width, img_height % grid_height);
        proof {
            lemma_without_remainder(img_width as int, grid_width as int);
            lemma_without_remainder(img_height as int, grid_height as int);
        }
        let img = if width_extra > 0 || height_extra > 0 {
            crop_imm_centered(&img, img_width - width_extra, img_height - height_extra)
        } else {
            img
        };
        let found = Self::construct_regions(&img, grid_size);
        match found {
            Ok(cells) => {
                proof {
                    assert(grid_width * cell_width == img@.width) by (nonlinear_arith)
                        requires
                            img@.width == grid_width * (img_width / grid_width),
                            cell_width == img_width / grid_width,
                    ;
                    assert(grid_height * cell_height == img@.height) by (nonlinear_arith)
                        requires
                            img@.height == grid_height * (img_height / grid_height),
                            cell_height == img_height / grid_height,
                    ;
                }
                Ok(Master { img, cells, cell_size: (cell_width, cell_height), grid_size })
            },
            Err(e) => Err(e),
        }
    }

    /// The cells of a `grid_size` grid over `img`, row after row.
    ///
    /// Fails where the grid does not divide the image.
    pub fn construct_regions(img: &RgbBuffer, grid_size: (u32, u32)) -> (res: Result<
        Vec<RgbBuffer>,
        PhomoError,
    >)
        requires
            img.wf(),
            grid_size.0 > 0,
            grid_size.1 > 0,
            grid_size.0 * grid_size.1 <= usize::MAX,
        ensures
            img@.width % grid_size.0 != 0 || img@.height % grid_size.1 != 0 ==> (res matches Err(
                PhomoError::MasterError(
                    MasterError::GridSizeMismatch { grid_size: g, master_dimensions, cell_size },
                ),
            ) && g == grid_size && master_dimensions == (img@.width, img@.height) && cell_size == (
                img@.width / grid_size.0,
                img@.height / grid_size.1,
            )),
            img@.width % grid_size.0 == 0 && img@.height % grid_size.1 == 0 ==> (res matches Ok(
                cells,
            ) && is_grid_of(
                cells@,
                img@,
                grid_size,
                (img@.width / grid_size.0, img@.height / grid_size.1),
            )),
    {
        let (grid_width, grid_height) = grid_size;
        let (width, height) = img.dimensions();
        let (cell_width, cell_height) = (width / grid_width, height / grid_height);
        if width % grid_width != 0 || height % grid_height != 0 {
            return Err(
                PhomoError::MasterError(
                    MasterError::GridSizeMismatch {
                        grid_size,
                        master_dimensions: (width, height),
                        cell_size: (cell_width, cell_height),
                    },
                ),
            );
        }
        proof {
            lemma_without_remainder(width as int, grid_width as int);
            lemma_without_remainder(height as int, grid_height as int);
        }
        let mut whole = img.duplicate();
        let ghost pixels = img@;
        let mut cells: Vec<RgbBuffer> = Vec::new();
        let mut y: u32 = 0;
        while y < grid_height
            invariant
                pixels == img@,
                whole@ == pixels,
                whole.wf(),
                grid_size == (grid_width, grid_height),
                grid_width > 0,
                grid_width * grid_height <= usize::MAX,
                pixels.width == grid_width * cell_width,
                pixels.height == grid_height * cell_height,
                y <= grid_height,
                cells.len() == y * grid_width,
                forall|i: int|
                    0 <= i < cells.len() ==> (#[trigger] cells[i]).wf() && cells[i]@ == cell_of(
                        pixels,
                        grid_width,
                        (cell_width, cell_height),
                        i,
                    ),
            decreases grid_height - y,
        {
            let mut x: u32 = 0;
            while x < grid_width
                invariant
                    pixels == img@,
                    whole@ == pixels,
                    whole.wf(),
                    grid_size == (grid_width, grid_height),
                    grid_width > 0,
                    grid_width * grid_height <= usize::MAX,
                    pixels.width == grid_width * cell_width,
                    pixels.height == grid_height * cell_height,
                    y < grid_height,
                    x <= grid_width,
                    cells.len() == y * grid_width + x,
                    forall|i: int|
                        0 <= i < cells.len() ==> (#[trigger] cells[i]).wf() && cells[i]@
                            == cell_of(pixels, grid_width, (cell_width, cell_height), i),
                decreases grid_width - x,
            {
                proof {
                    assert(x * cell_width + cell_width <= grid_width * cell_width) by (nonlinear_arith)
                        requires
                            x + 1 <= grid_width,
                            cell_width >= 0,
                    ;
                    assert(y * cell_height + cell_height <= grid_height * cell_height) by (nonlinear_arith)
                        requires
                            y + 1 <= grid_height,
                            cell_height >= 0,
                    ;
                    assert(0 <= x * cell_width && 0 <= y * cell_height) by (nonlinear_arith)
                        requires
                            x >= 0,
                            y >= 0,
                            cell_width >= 0,
                            cell_height >= 0,
                    ;
                    assert(y * grid_width + grid_width <= grid_width * grid_height) by (nonlinear_arith)
                        requires
                            y + 1 <= grid_height,
                            grid_width >= 0,
                    ;
                    lemma_fundamental_div_mod_converse(
                        y * grid_width + x,
                        grid_width as int,
                        y as int,
                        x as int,
                    );
                }
                let cell = view(&mut whole, x * cell_width, y * cell_height, cell_width, cell_height);
                cells.push(cell);
                x += 1;
            }
            proof {
                assert((y + 1) * grid_width == y * grid_width + grid_width) by (nonlinear_arith);
            }
            y += 1;
        }
        proof {
            assert(grid_height * grid_width == grid_width * grid_height) by (nonlinear_arith);
        }
        Ok(cells)
    }
}

impl Master {
    /// Where cell `i` goes when the cells are drawn one pixel apart.
    pub open spec fn spaced_place(&self, i: int) -> Cell {
        let column = i % (self.grid_size.0 as int);
        let row = i / (self.grid_size.0 as int);
        Cell {
            tile_index: i as usize,
            x: (column * self.cell_size.0 + column) as u32,
            y: (row * self.cell_size.1 + row) as u32,
        }
    }

    /// The cells drawn one pixel apart on a white canvas.
    pub open spec fn overlaid(&self) -> Pixels {
        painted(
            Pixels::filled(
                (self.img@.width + self.grid_size.0 - 1) as u32,
                (self.img@.height + self.grid_size.1 - 1) as u32,
                seq![255u8, 255u8, 255u8],
            ),
            Seq::new(self.cells@.len(), |i: int| self.spaced_place(i)),
            views(self.cells@),
            self.cells@.len(),
        )
    }

    /// Draws the grid over the image: the cells are set one pixel apart, and
    /// the gaps between them are white.
    pub fn overlay_grid(&self) -> (res: Result<RgbBuffer, PhomoError>)
        requires
            self.wf(),
            self.img@.width + self.grid_size.0 <= u32::MAX,
            self.img@.height + self.grid_size.1 <= u32::MAX,
            3 * (self.img@.width + self.grid_size.0 - 1) <= usize::MAX,
            3 * (self.img@.width + self.grid_size.0 - 1) * (self.img@.height + self.grid_size.1
                - 1) <= usize::MAX,
        ensures
            res matches Ok(out) && out.wf() && out@ == self.overlaid(),
    {
        let (grid_width, grid_height) = self.grid_size;
        let (cell_width, cell_height) = self.cell_size;
        let width = self.img.width() + grid_width - 1;
        let height = self.img.height() + grid_height - 1;
        let white: [u8; 3] = [255, 255, 255];
        let mut grid_img = RgbBuffer::from_pixel(width, height, white);
        let ghost canvas = Pixels::filled(width, height, seq![255u8, 255u8, 255u8]);
        let ghost places = Seq::new(self.cells@.len(), |i: int| self.spaced_place(i));
        let ghost shown = views(self.cells@);
        proof {
            assert(white@ =~= seq![255u8, 255u8, 255u8]);
        }
        let mut i: usize = 0;
        while i < self.cells.len()
            invariant
                self.wf(),
                (grid_width, grid_height) == self.grid_size,
                (cell_width, cell_height) == self.cell_size,
                width == self.img@.width + grid_width - 1,
                height == self.img@.height + grid_height - 1,
                canvas == Pixels::filled(width, height, seq![255u8, 255u8, 255u8]),
                places == Seq::new(self.cells@.len(), |i: int| self.spaced_place(i)),
                shown == views(self.cells@),
                i <= self.cells.len(),
                grid_img.wf(),
                grid_img@ == painted(canvas, places, shown, i as nat),
            decreases self.cells.len() - i,
        {
            proof {
                crate::mosaic::lemma_cell_place(
                    i as int,
                    grid_width as int,
                    grid_height as int,
                    cell_width as int,
                    cell_height as int,
                );
                crate::blueprint::lemma_painted_dimensions(canvas, places, shown, i as nat);
                assert(self.cells@[i as int].wf());
                assert(shown[i as int] == self.cells@[i as int]@);
                assert(places[i as int] == self.spaced_place(i as int));
            }
            let col_i = (i % grid_width as usize) as u32;
            let row_i = (i / grid_width as usize) as u32;
            let x = col_i * cell_width + col_i;
            let y = row_i * cell_height + row_i;
            match copy_from(&mut grid_img, &self.cells[i], x, y) {
                Ok(_) => {},
                Err(e) => {
                    return Err(PhomoError::ImageError(e));
                },
            }
            i += 1;
        }
        Ok(grid_img)
    }
}

impl Master {
    /// The cells show the image row after row: pixel `(px, py)` of cell `i`
    /// is the pixel of the image that lies `i % grid_width` cells to the
    /// right, `i / grid_width` cells down, and then `(px, py)` further.
    pub proof fn lemma_cell_pixel(&self, i: int, px: int, py: int, c: int)
        requires
            self.wf(),
            0 <= i < self.cells@.len(),
            0 <= px < self.cell_size.0,
            0 <= py < self.cell_size.1,
            0 <= c < 3,
        ensures
            self.cells@[i]@.width == self.cell_size.0,
            self.cells@[i]@.height == self.cell_size.1,
            self.cells@[i]@.sample(px, py, c) == self.img@.sample(
                (i % (self.grid_size.0 as int)) * self.cell_size.0 + px,
                (i / (self.grid_size.0 as int)) * self.cell_size.1 + py,
                c,
            ),
    {
        assert(self.cells@[i].wf());
        crate::buffer::lemma_region_sample(
            self.img@,
            (i % (self.grid_size.0 as int)) * self.cell_size.0,
            (i / (self.grid_size.0 as int)) * self.cell_size.1,
            self.cell_size.0,
            self.cell_size.1,
            px,
            py,
            c,
        );
    }
}

} // verus!
