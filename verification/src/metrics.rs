//! Distances between two images of equal size.

use crate::buffer::Pixels;
use crate::buffer::RgbBuffer;
use vstd::prelude::*;

verus! {

/// The distance between two samples.
pub open spec fn sample_diff(a: u8, b: u8) -> int {
    if a >= b {
        a - b
    } else {
        b - a
    }
}

/// The sum of the distances between the first `n` samples of `a` and of `b`.
pub open spec fn l1_upto(a: Seq<u8>, b: Seq<u8>, n: nat) -> int
    decreases n,
{
    if n == 0 {
        0
    } else {
        l1_upto(a, b, (n - 1) as nat) + sample_diff(a[n - 1], b[n - 1])
    }
}

/// The sum of the squared distances between the first `n` samples of `a`
/// and of `b`.
pub open spec fn l2_upto(a: Seq<u8>, b: Seq<u8>, n: nat) -> int
    decreases n,
{
    if n == 0 {
        0
    } else {
        l2_upto(a, b, (n - 1) as nat) + sample_diff(a[n - 1], b[n - 1]) * sample_diff(
            a[n - 1],
            b[n - 1],
        )
    }
}

/// The number of samples that both sequences have.
pub open spec fn common_len(a: Seq<u8>, b: Seq<u8>) -> nat {
    if a.len() <= b.len() {
        a.len()
    } else {
        b.len()
    }
}

/// The sum of the absolute differences of the samples.
pub open spec fn l1(a: Pixels, b: Pixels) -> int {
    l1_upto(a.data, b.data, common_len(a.data, b.data))
}

/// The sum of the squared differences of the samples.
pub open spec fn l2(a: Pixels, b: Pixels) -> int {
    l2_upto(a.data, b.data, common_len(a.data, b.data))
}

/// The sum of sample `c` of the first `n` pixels.
pub open spec fn channel_sum(data: Seq<u8>, c: int, n: nat) -> int
    decreases n,
{
    if n == 0 {
        0
    } else {
        channel_sum(data, c, (n - 1) as nat) + data[3 * (n - 1) + c]
    }
}

/// The absolute difference of two sums.
pub open spec fn sum_diff(a: int, b: int) -> int {
    if a >= b {
        a - b
    } else {
        b - a
    }
}

/// The difference of the average colours: the differences of the three
/// channel sums, added up and divided by three times the number of pixels
/// of the first image.
pub open spec fn average_diff(a: Pixels, b: Pixels) -> int {
    let n = (a.width * a.height) as nat;
    let k = (b.width * b.height) as nat;
    (sum_diff(channel_sum(a.data, 0, n), channel_sum(b.data, 0, k)) + sum_diff(
        channel_sum(a.data, 1, n),
        channel_sum(b.data, 1, k),
    ) + sum_diff(channel_sum(a.data, 2, n), channel_sum(b.data, 2, k))) / (3 * a.width * a.height)
}

/// The sum of the absolute differences of the samples.
pub fn norm_l1(img1: &RgbBuffer, img2: &RgbBuffer) -> (d: i64)
    requires
        255 * common_len(img1@.data, img2@.data) <= i64::MAX,
    ensures
        d == l1(img1@, img2@),
        0 <= d <= 255 * common_len(img1@.data, img2@.data),
{
    let data1 = img1.as_raw();
    let data2 = img2.as_raw();
    let len = if data1.len() <= data2.len() {
        data1.len()
    } else {
        data2.len()
    };
    let mut sum: i64 = 0;
    let mut i: usize = 0;
    while i < len
        invariant
            i <= len,
            len == common_len(data1@, data2@),
            255 * len <= i64::MAX,
            sum == l1_upto(data1@, data2@, i as nat),
            0 <= sum <= 255 * i,
        decreases len - i,
    {
        let a = data1[i];
        let b = data2[i];
        let diff: u8 = if a >= b {
            a - b
        } else {
            b - a
        };
        sum = sum + diff as i64;
        i += 1;
    }
    sum
}

/// The sum of the squared differences of the samples.
pub fn norm_l2(img1: &RgbBuffer, img2: &RgbBuffer) -> (d: i64)
    requires
        65025 * common_len(img1@.data, img2@.data) <= i64::MAX,
    ensures
        d == l2(img1@, img2@),
        0 <= d <= 65025 * common_len(img1@.data, img2@.data),
{
    let data1 = img1.as_raw();
    let data2 = img2.as_raw();
    let len = if data1.len() <= data2.len() {
        data1.len()
    } else {
        data2.len()
    };
    let mut sum: i64 = 0;
    let mut i: usize = 0;
    while i < len
        invariant
            i <= len,
            len == common_len(data1@, data2@),
            65025 * len <= i64::MAX,
            sum == l2_upto(data1@, data2@, i as nat),
            0 <= sum <= 65025 * i,
        decreases len - i,
    {
        let a = data1[i];
        let b = data2[i];
        let diff: i64 = if a >= b {
            (a - b) as i64
        } else {
            (b - a) as i64
        };
        proof {
            assert(0 <= diff * diff <= 65025) by (nonlinear_arith)
                requires
                    0 <= diff <= 255,
            ;
        }
        sum = sum + diff * diff;
        i += 1;
    }
    sum
}

/// The three channel sums of an image.
fn channel_sums(img: &RgbBuffer) -> (sums: (i64, i64, i64))
    requires
        img.wf(),
        255 * (img@.width * img@.height) <= i64::MAX,
    ensures
        sums.0 == channel_sum(img@.data, 0, (img@.width * img@.height) as nat),
        sums.1 == channel_sum(img@.data, 1, (img@.width * img@.height) as nat),
        sums.2 == channel_sum(img@.data, 2, (img@.width * img@.height) as nat),
        0 <= sums.0 <= 255 * (img@.width * img@.height),
        0 <= sums.1 <= 255 * (img@.width * img@.height),
        0 <= sums.2 <= 255 * (img@.width * img@.height),
{
    let data = img.as_raw();
    let ghost pixels = img@.width * img@.height;
    proof {
        assert(3 * img@.width * img@.height == 3 * pixels) by (nonlinear_arith)
            requires
                pixels == img@.width * img@.height,
        ;
        assert(pixels >= 0) by (nonlinear_arith)
            requires
                pixels == img@.width * img@.height,
        ;
    }
    let n = data.len() / 3;
    let mut red: i64 = 0;
    let mut green: i64 = 0;
    let mut blue: i64 = 0;
    let mut p: usize = 0;
    while p < n
        invariant
            p <= n,
            n == pixels,
            data.len() == 3 * pixels,
            data@ == img@.data,
            255 * pixels <= i64::MAX,
            red == channel_sum(data@, 0, p as nat),
            green == channel_sum(data@, 1, p as nat),
            blue == channel_sum(data@, 2, p as nat),
            0 <= red <= 255 * p,
            0 <= green <= 255 * p,
            0 <= blue <= 255 * p,
        decreases n - p,
    {
        red = red + data[3 * p] as i64;
        green = green + data[3 * p + 1] as i64;
        blue = blue + data[3 * p + 2] as i64;
        p += 1;
    }
    (red, green, blue)
}

/// The difference of the average colours of two images.
///
/// How the colours are spread over the images plays no part.
pub fn avg_color(img1: &RgbBuffer, img2: &RgbBuffer) -> (d: i64)
    requires
        img1.wf(),
        img2.wf(),
        img1@.width * img1@.height > 0,
        765 * (img1@.width * img1@.height) <= i64::MAX,
        765 * (img2@.width * img2@.height) <= i64::MAX,
    ensures
        d == average_diff(img1@, img2@),
        d >= 0,
{
    let avg1 = channel_sums(img1);
    let avg2 = channel_sums(img2);
    let red = if avg1.0 >= avg2.0 {
        avg1.0 - avg2.0
    } else {
        avg2.0 - avg1.0
    };
    let green = if avg1.1 >= avg2.1 {
        avg1.1 - avg2.1
    } else {
        avg2.1 - avg1.1
    };
    let blue = if avg1.2 >= avg2.2 {
        avg1.2 - avg2.2
    } else {
        avg2.2 - avg1.2
    };
    let ghost pixels = img1@.width * img1@.height;
    proof {
        assert(3 * img1@.width * img1@.height == 3 * pixels) by (nonlinear_arith)
            requires
                pixels == img1@.width * img1@.height,
        ;
        assert(img1@.width as int * (img1@.height as int) == pixels);
    }
    let count: i64 = 3 * (img1.width() as i64 * img1.height() as i64);
    let total = red + green + blue;
    proof {
        assert(total / count >= 0) by (nonlinear_arith)
            requires
                total >= 0,
                count > 0,
        ;
    }
    total / count
}

/// A way to measure how far a tile is from a cell.
///
/// Both images have the same dimensions, and few enough samples for the
/// sums of squared differences to fit a machine word. The distance is never
/// negative; lower means closer.
pub trait Metric {
    /// Measures the distance between `img1` and `img2`.
    fn compute(&self, img1: &RgbBuffer, img2: &RgbBuffer) -> (d: i64)
        requires
            img1.wf(),
            img2.wf(),
            img1@.width == img2@.width,
            img1@.height == img2@.height,
            65025 * img1@.data.len() <= i64::MAX,
        ensures
            d >= 0,
    ;
}

/// The sum of the absolute differences of the samples.
#[derive(Debug, Clone, Copy)]
pub struct NormL1;

impl Metric for NormL1 {
    fn compute(&self, img1: &RgbBuffer, img2: &RgbBuffer) -> (d: i64)
        ensures
            d == l1(img1@, img2@),
    {
        norm_l1(img1, img2)
    }
}

/// The sum of the squared differences of the samples.
#[derive(Debug, Clone, Copy)]
pub struct NormL2;

impl Metric for NormL2 {
    fn compute(&self, img1: &RgbBuffer, img2: &RgbBuffer) -> (d: i64)
        ensures
            d == l2(img1@, img2@),
    {
        norm_l2(img1, img2)
    }
}

} // verus!
