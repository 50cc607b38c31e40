//! Helpers on pixel buffers.

use crate::buffer::crop_imm;
use crate::buffer::Pixels;
use crate::buffer::RgbBuffer;
use vstd::prelude::*;

verus! {

/// The `width` by `height` pixels in the middle of `img`. Where the margin
/// cannot be split evenly, the extra pixel is left on the right and at the
/// bottom.
pub open spec fn centered(img: Pixels, width: u32, height: u32) -> Pixels {
    img.region((img.width - width) / 2, (img.height - height) / 2, width, height)
}

/// Cuts the `width` by `height` pixels in the middle out of `img`.
pub fn crop_imm_centered(img: &RgbBuffer, width: u32, height: u32) -> (out: RgbBuffer)
    requires
        img.wf(),
        width <= img@.width,
        height <= img@.height,
    ensures
        out.wf(),
        out@ == centered(img@, width, height),
{
    let mut whole = img.duplicate();
    let x = (img.width() - width) / 2;
    let y = (img.height() - height) / 2;
    crop_imm(&mut whole, x, y, width, height)
}

} // verus!
