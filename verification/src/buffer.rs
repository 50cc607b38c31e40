//! Pixel buffers: images of three 8-bit samples per pixel, stored row
//! after row.
//!
//! Cutting a region out of a buffer and copying one buffer into another is
//! left to the `image` crate. The three functions that call it state what
//! its source shows; Verus takes their contracts on trust.

use vstd::prelude::*;

verus! {

/// An image as a mathematical value: its dimensions and its samples.
pub struct Pixels {
    pub width: u32,
    pub height: u32,
    pub data: Seq<u8>,
}

impl Pixels {
    /// There are exactly three samples for every pixel, and the samples of
    /// a row, like those of the whole image, are no more than a machine can
    /// address.
    pub open spec fn wf(self) -> bool {
        &&& self.data.len() == 3 * self.width * self.height
        &&& 3 * self.width <= usize::MAX
        &&& self.data.len() <= usize::MAX
    }

    /// Sample `c` of the pixel in column `x` of row `y`.
    pub open spec fn sample(self, x: int, y: int, c: int) -> u8 {
        self.data[3 * (y * self.width + x) + c]
    }

    /// The `width` by `height` pixels whose top left corner is at `(x, y)`.
    pub open spec fn region(self, x: int, y: int, width: u32, height: u32) -> Pixels {
        Pixels {
            width,
            height,
            data: Seq::new(
                (3 * width * height) as nat,
                |i: int| self.sample(x + (i / 3) % (width as int), y + (i / 3) / (width as int), i % 3),
            ),
        }
    }

    /// `src` lies within this image when its top left corner is put at `(x, y)`.
    pub open spec fn fits(self, src: Pixels, x: int, y: int) -> bool {
        x + src.width <= self.width && y + src.height <= self.height
    }

    /// This image with `src` copied over it, top left corner at `(x, y)`.
    pub open spec fn blit(self, src: Pixels, x: int, y: int) -> Pixels {
        Pixels {
            width: self.width,
            height: self.height,
            data: Seq::new(
                self.data.len(),
                |i: int|
                    {
                        let px = (i / 3) % (self.width as int);
                        let py = (i / 3) / (self.width as int);
                        if x <= px < x + src.width && y <= py < y + src.height {
                            src.sample(px - x, py - y, i % 3)
                        } else {
                            self.data[i]
                        }
                    },
            ),
        }
    }

    /// The image of the given dimensions whose every pixel is `pixel`.
    pub open spec fn filled(width: u32, height: u32, pixel: Seq<u8>) -> Pixels {
        Pixels {
            width,
            height,
            data: Seq::new((3 * width * height) as nat, |i: int| pixel[i % 3]),
        }
    }
}

/// An image of three samples per pixel.
#[derive(Debug, Clone, PartialEq, Eq)]
pub struct RgbBuffer {
    width: u32,
    height: u32,
    data: Vec<u8>,
}

impl View for RgbBuffer {
    type V = Pixels;

    closed spec fn view(&self) -> Pixels {
        Pixels { width: self.width, height: self.height, data: self.data@ }
    }
}

impl RgbBuffer {
    /// The buffer holds exactly three samples for every pixel.
    pub open spec fn wf(&self) -> bool {
        self@.wf()
    }

    /// Wraps `data` as an image, if it holds exactly three samples for
    /// every pixel and the samples of a row can be addressed.
    pub fn from_raw(width: u32, height: u32, data: Vec<u8>) -> (res: Option<Self>)
        ensures
            data.len() == 3 * width * height && 3 * width <= usize::MAX ==> (res matches Some(img)
                && img.wf() && img@ == Pixels { width, height, data: data@ }),
            data.len() != 3 * width * height || 3 * width > usize::MAX ==> res is None,
    {
        let len = data.len();
        let expected = match 3usize.checked_mul(width as usize) {
            Some(row) => row.checked_mul(height as usize),
            None => None,
        };
        proof {
            assert(3 * width * height >= 0) by (nonlinear_arith)
                requires
                    width >= 0,
                    height >= 0,
            ;
        }
        match expected {
            Some(n) => {
                if n == len {
                    Some(Self { width, height, data })
                } else {
                    None
                }
            },
            None => {
                proof {
                    if 3 * width <= usize::MAX {
                        assert(3 * width * height > usize::MAX);
                    }
                }
                None
            },
        }
    }

    /// An image whose every pixel is `pixel`.
    pub fn from_pixel(width: u32, height: u32, pixel: [u8; 3]) -> (img: Self)
        requires
            3 * width <= usize::MAX,
            3 * width * height <= usize::MAX,
        ensures
            img.wf(),
            img@ == Pixels::filled(width, height, pixel@),
    {
        let mut data: Vec<u8> = Vec::new();
        let ghost total = 3 * width * height;
        let mut y: u32 = 0;
        while y < height
            invariant
                y <= height,
                total == 3 * width * height,
                total <= usize::MAX,
                data.len() == 3 * width * y,
                forall|i: int| 0 <= i < data.len() ==> #[trigger] data@[i] == pixel@[i % 3],
            decreases height - y,
        {
            let mut x: u32 = 0;
            while x < width
                invariant
                    y < height,
                    x <= width,
                    total == 3 * width * height,
                    total <= usize::MAX,
                    data.len() == 3 * width * y + 3 * x,
                    forall|i: int| 0 <= i < data.len() ==> #[trigger] data@[i] == pixel@[i % 3],
                decreases width - x,
            {
                proof {
                    assert(3 * width * y + 3 * width <= 3 * width * height) by (nonlinear_arith)
                        requires
                            y + 1 <= height,
                            width >= 0,
                    ;
                    assert(3 * width * y + 3 * x == (width * y + x) * 3) by (nonlinear_arith);
                    vstd::arithmetic::div_mod::lemma_mod_multiples_basic(width * y + x, 3);
                }
                let ghost base = data.len() as int;
                data.push(pixel[0]);
                data.push(pixel[1]);
                data.push(pixel[2]);
                proof {
                    assert((base + 1) % 3 == 1);
                    assert((base + 2) % 3 == 2);
                }
                x += 1;
            }
            proof {
                assert(3 * width * (y + 1) == 3 * width * y + 3 * width) by (nonlinear_arith);
            }
            y += 1;
        }
        let img = Self { width, height, data };
        proof {
            assert(img@.data =~= Pixels::filled(width, height, pixel@).data);
        }
        img
    }

    /// An image whose every sample is zero.
    pub fn new(width: u32, height: u32) -> (img: Self)
        requires
            3 * width <= usize::MAX,
            3 * width * height <= usize::MAX,
        ensures
            img.wf(),
            img@ == Pixels::filled(width, height, seq![0u8, 0u8, 0u8]),
    {
        let pixel: [u8; 3] = [0, 0, 0];
        let img = Self::from_pixel(width, height, pixel);
        proof {
            assert(pixel@ =~= seq![0u8, 0u8, 0u8]);
        }
        img
    }

    /// The number of pixels in a row.
    pub fn width(&self) -> (width: u32)
        ensures
            width == self@.width,
    {
        self.width
    }

    /// The number of rows.
    pub fn height(&self) -> (height: u32)
        ensures
            height == self@.height,
    {
        self.height
    }

    /// Width and height.
    pub fn dimensions(&self) -> (dimensions: (u32, u32))
        ensures
            dimensions == (self@.width, self@.height),
    {
        (self.width, self.height)
    }

    /// The samples, row after row.
    pub fn as_raw(&self) -> (data: &Vec<u8>)
        ensures
            data@ == self@.data,
    {
        &self.data
    }

    /// The samples, row after row.
    pub fn into_raw(self) -> (data: Vec<u8>)
        ensures
            data@ == self@.data,
    {
        self.data
    }

    /// A copy of this image.
    pub fn duplicate(&self) -> (copy: Self)
        ensures
            copy@ == self@,
    {
        let data = self.data.clone();
        proof {
            assert(data@ =~= self.data@);
        }
        Self { width: self.width, height: self.height, data }
    }
}

impl RgbBuffer {
    /// The three samples of the pixel in column `x` of row `y`.
    pub fn get_pixel(&self, x: u32, y: u32) -> (pixel: [u8; 3])
        requires
            self.wf(),
            x < self@.width,
            y < self@.height,
        ensures
            forall|c: int| 0 <= c < 3 ==> pixel@[c] == self@.sample(x as int, y as int, c),
    {
        proof {
            lemma_sample_index(self@, x as int, y as int);
            assert(self.data.len() == self@.data.len());
        }
        let at = 3 * (y as usize * self.width as usize + x as usize);
        [self.data[at], self.data[at + 1], self.data[at + 2]]
    }
}

impl RgbBuffer {
    /// The samples of an image are no more than a machine can address.
    pub proof fn lemma_data_len(&self)
        ensures
            self@.data.len() <= usize::MAX,
    {
        assert(self.data.len() == self@.data.len());
    }
}

/// The samples of a pixel of a well-formed image lie within its data.
pub proof fn lemma_sample_index(img: Pixels, x: int, y: int)
    requires
        img.wf(),
        0 <= x < img.width,
        0 <= y < img.height,
    ensures
        0 <= y * img.width,
        0 <= y * img.width + x < img.width * img.height,
        0 <= 3 * (y * img.width + x),
        3 * (y * img.width + x) + 2 < img.data.len(),
{
    assert(0 <= y * img.width) by (nonlinear_arith)
        requires
            0 <= y,
            0 <= img.width,
    ;
    assert(y * img.width + img.width <= img.width * img.height) by (nonlinear_arith)
        requires
            y + 1 <= img.height,
            0 <= img.width,
    ;
    assert(3 * img.width * img.height == 3 * (img.width * img.height)) by (nonlinear_arith);
}

/// The sample at place `3 * (y * width + x) + c` belongs to sample `c` of the
/// pixel at `(x, y)`.
pub proof fn lemma_sample_place(width: int, x: int, y: int, c: int)
    requires
        0 <= x < width,
        0 <= y,
        0 <= c < 3,
    ensures
        (3 * (y * width + x) + c) % 3 == c,
        (3 * (y * width + x) + c) / 3 == y * width + x,
        (y * width + x) % width == x,
        (y * width + x) / width == y,
{
    let p = y * width + x;
    assert(3 * p == p * 3) by (nonlinear_arith);
    vstd::arithmetic::div_mod::lemma_fundamental_div_mod_converse(3 * p + c, 3, p, c);
    vstd::arithmetic::div_mod::lemma_fundamental_div_mod_converse(p, width, y, x);
}

/// A pixel of a region is the pixel of the image that lies as far from the
/// region's corner.
pub proof fn lemma_region_sample(
    img: Pixels,
    x: int,
    y: int,
    width: u32,
    height: u32,
    px: int,
    py: int,
    c: int,
)
    requires
        0 <= px < width,
        0 <= py < height,
        0 <= c < 3,
    ensures
        img.region(x, y, width, height).sample(px, py, c) == img.sample(x + px, y + py, c),
{
    let part = img.region(x, y, width, height);
    lemma_sample_place(width as int, px, py, c);
    let i = 3 * (py * width + px) + c;
    assert(0 <= py * width + px < width * height) by (nonlinear_arith)
        requires
            0 <= px < width,
            0 <= py < height,
    ;
    assert(3 * width * height == 3 * (width * height)) by (nonlinear_arith);
    assert(0 <= i < 3 * width * height);
    assert(part.data[i] == img.sample(x + (i / 3) % (width as int), y + (i / 3) / (width as int), i % 3));
}

/// Every pixel of a filled image is the pixel it was filled with.
pub proof fn lemma_filled_sample(width: u32, height: u32, pixel: Seq<u8>, px: int, py: int, c: int)
    requires
        0 <= px < width,
        0 <= py < height,
        0 <= c < 3,
    ensures
        Pixels::filled(width, height, pixel).sample(px, py, c) == pixel[c],
        3 * width <= usize::MAX && 3 * width * height <= usize::MAX ==> Pixels::filled(
            width,
            height,
            pixel,
        ).wf(),
{
    lemma_sample_place(width as int, px, py, c);
    assert(0 <= py * width + px < width * height) by (nonlinear_arith)
        requires
            0 <= px < width,
            0 <= py < height,
    ;
    assert(3 * width * height == 3 * (width * height)) by (nonlinear_arith);
}

/// After a copy, a pixel within the copied tile's place is the tile's pixel;
/// any other is what it was.
pub proof fn lemma_blit_sample(canvas: Pixels, src: Pixels, x: int, y: int, px: int, py: int, c: int)
    requires
        canvas.wf(),
        0 <= px < canvas.width,
        0 <= py < canvas.height,
        0 <= c < 3,
    ensures
        canvas.blit(src, x, y).wf(),
        canvas.blit(src, x, y).width == canvas.width,
        canvas.blit(src, x, y).height == canvas.height,
        canvas.blit(src, x, y).sample(px, py, c) == (if x <= px < x + src.width && y <= py < y
            + src.height {
            src.sample(px - x, py - y, c)
        } else {
            canvas.sample(px, py, c)
        }),
{
    lemma_sample_place(canvas.width as int, px, py, c);
    lemma_sample_index(canvas, px, py);
}

/// Cuts a region out of `img` with `image::imageops::crop_imm` and copies it
/// into a buffer of its own with `SubImage::to_image`.
///
/// Taken on trust: for a region that lies within the image the result has
/// the region's dimensions and holds, pixel for pixel, the image's pixels
/// from the region's corner on. The image is handed to the `image` crate and
/// taken back unchanged. A valid buffer passes the `image` crate's own test
/// of the dimensions against the length, so it is taken as it is.
#[verifier::external_body]
pub(crate) fn crop_imm(img: &mut RgbBuffer, x: u32, y: u32, width: u32, height: u32) -> (out:
    RgbBuffer)
    requires
        old(img).wf(),
        x + width <= old(img)@.width,
        y + height <= old(img)@.height,
    ensures
        final(img)@ == old(img)@,
        out.wf(),
        out@ == old(img)@.region(x as int, y as int, width, height),
{
    let samples = std::mem::take(&mut img.data);
    let whole = image::RgbImage::from_raw(img.width, img.height, samples).unwrap();
    let part = image::imageops::crop_imm(&whole, x, y, width, height).to_image();
    img.data = whole.into_raw();
    RgbBuffer { width: part.width(), height: part.height(), data: part.into_raw() }
}

/// Cuts a region out of `img` with `image::GenericImageView::view` and
/// copies it into a buffer of its own with `SubImage::to_image`.
///
/// Taken on trust: for a region that lies within the image the result has
/// the region's dimensions and holds, pixel for pixel, the image's pixels
/// from the region's corner on. The image is handed to the `image` crate and
/// taken back unchanged. A valid buffer passes the `image` crate's own test
/// of the dimensions against the length, so it is taken as it is.
#[verifier::external_body]
pub(crate) fn view(img: &mut RgbBuffer, x: u32, y: u32, width: u32, height: u32) -> (out: RgbBuffer)
    requires
        old(img).wf(),
        x + width <= old(img)@.width,
        y + height <= old(img)@.height,
    ensures
        final(img)@ == old(img)@,
        out.wf(),
        out@ == old(img)@.region(x as int, y as int, width, height),
{
    let samples = std::mem::take(&mut img.data);
    let whole = image::RgbImage::from_raw(img.width, img.height, samples).unwrap();
    let part = image::GenericImageView::view(&whole, x, y, width, height).to_image();
    img.data = whole.into_raw();
    RgbBuffer { width: part.width(), height: part.height(), data: part.into_raw() }
}

/// Copies `tile` into `canvas` at `(x, y)` with `image::GenericImage::copy_from`.
///
/// Taken on trust: the call succeeds exactly when the tile lies within the
/// canvas; then the canvas holds the tile's pixels from `(x, y)` on and its
/// own everywhere else. When it fails the canvas is unchanged. Valid
/// buffers pass the `image` crate's own test of the dimensions against the
/// length, so canvas and tile are taken as they are.
#[verifier::external_body]
pub(crate) fn copy_from(canvas: &mut RgbBuffer, tile: &RgbBuffer, x: u32, y: u32) -> (res: Result<
    (),
    image::ImageError,
>)
    requires
        old(canvas).wf(),
        tile.wf(),
    ensures
        final(canvas).wf(),
        res is Ok <==> old(canvas)@.fits(tile@, x as int, y as int),
        res is Ok ==> final(canvas)@ == old(canvas)@.blit(tile@, x as int, y as int),
        res is Err ==> final(canvas)@ == old(canvas)@,
{
    let samples = std::mem::take(&mut canvas.data);
    let mut target = image::RgbImage::from_raw(canvas.width, canvas.height, samples).unwrap();
    let source = image::ImageBuffer::<image::Rgb<u8>, &[u8]>::from_raw(
        tile.width,
        tile.height,
        tile.data.as_slice(),
    ).unwrap();
    let res = image::GenericImage::copy_from(&mut target, &source, x, y);
    canvas.data = target.into_raw();
    res
}

} // verus!
