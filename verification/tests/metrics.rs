use phomo::metrics::Metric;
use phomo::metrics::NormL1;
use phomo::metrics::NormL2;
use phomo::RgbBuffer;
use phomo::{avg_color, norm_l1, norm_l2};

fn create_test_image(width: u32, height: u32) -> RgbBuffer {
    let img = image::RgbImage::from_fn(width, height, |x, y| {
        image::Rgb([(x % 256) as u8, (y % 256) as u8, 0])
    });
    RgbBuffer::from_raw(width, height, img.into_raw()).unwrap()
}

#[test]
fn metrics_test_norml1() {
    let img1 = create_test_image(256, 256);
    let img2 = img1.clone();
    assert_eq!(norm_l1(&img1, &img2), 0);

    let img1 = RgbBuffer::from_pixel(64, 64, [0, 0, 0]);
    let img2 = RgbBuffer::from_pixel(64, 64, [255, 255, 255]);
    assert_eq!(norm_l1(&img1, &img2), 64 * 64 * 255 * 3);
}

#[test]
fn metrics_test_norml2() {
    let img1 = create_test_image(256, 256);
    let img2 = img1.clone();
    assert_eq!(norm_l2(&img1, &img2), 0);

    let img1 = RgbBuffer::from_pixel(64, 64, [0, 0, 0]);
    let img2 = RgbBuffer::from_pixel(64, 64, [255, 255, 255]);
    assert_eq!(norm_l2(&img1, &img2), 64 * 64 * 255_i64.pow(2) * 3);
}

#[test]
fn norms_of_two_pixels() {
    let img1 = RgbBuffer::from_raw(2, 1, vec![10, 20, 30, 1, 2, 3]).unwrap();
    let img2 = RgbBuffer::from_raw(2, 1, vec![13, 18, 30, 0, 2, 10]).unwrap();
    assert_eq!(norm_l1(&img1, &img2), 3 + 2 + 0 + 1 + 0 + 7);
    assert_eq!(norm_l1(&img2, &img1), 13);
    assert_eq!(norm_l2(&img1, &img2), 9 + 4 + 0 + 1 + 0 + 49);
    assert_eq!(NormL1.compute(&img1, &img2), 13);
    assert_eq!(NormL2.compute(&img1, &img2), 63);
}

#[test]
fn norms_of_images_without_pixels() {
    let empty = RgbBuffer::new(0, 0);
    assert_eq!(norm_l1(&empty, &empty), 0);
    assert_eq!(norm_l2(&empty, &empty), 0);
}

#[test]
fn average_colour_of_black_and_white() {
    let img1 = RgbBuffer::from_pixel(2, 2, [0, 0, 0]);
    let img2 = RgbBuffer::from_pixel(2, 2, [255, 255, 255]);
    assert_eq!(avg_color(&img1, &img2), 255);
    assert_eq!(avg_color(&img2, &img1), 255);
    assert_eq!(avg_color(&img1, &img1), 0);
}

#[test]
fn average_colour_ignores_where_the_colour_is() {
    let img1 = RgbBuffer::from_raw(2, 1, vec![10, 0, 0, 0, 0, 0]).unwrap();
    let img2 = RgbBuffer::from_raw(2, 1, vec![0, 0, 0, 10, 0, 0]).unwrap();
    assert_eq!(avg_color(&img1, &img2), 0);
    // The sums differ by 10, 20 and 31; 61 over six samples is 10.
    let img3 = RgbBuffer::from_raw(2, 1, vec![20, 0, 31, 0, 20, 0]).unwrap();
    assert_eq!(avg_color(&img1, &img3), 10);
}
