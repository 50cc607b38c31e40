use phomo::utils::crop_imm_centered;
use phomo::RgbBuffer;

fn buffer(img: &image::RgbImage) -> RgbBuffer {
    RgbBuffer::from_raw(img.width(), img.height(), img.clone().into_raw()).unwrap()
}

#[test]
fn utils_test_crop_imm_centered() {
    // create white image with a black pixel centered on the image
    let mut img = image::RgbImage::from_pixel(11, 11, image::Rgb([255, 255, 255]));
    img.put_pixel(5, 5, image::Rgb([0, 0, 0]));
    let img = buffer(&img);

    let cropped = crop_imm_centered(&img, 5, 5);
    assert_eq!(cropped.dimensions(), (5, 5));
    assert_eq!(cropped.get_pixel(2, 2), [0, 0, 0]);

    let cropped = crop_imm_centered(&img, 1, 1);
    assert_eq!(cropped.dimensions(), (1, 1));
    assert_eq!(cropped.get_pixel(0, 0), [0, 0, 0]);
}

#[test]
fn crop_leaves_the_odd_pixel_on_the_far_side() {
    // Four columns, three kept: the margin of one cannot be split, so
    // nothing is cut on the left.
    let img = RgbBuffer::from_raw(
        4,
        1,
        vec![10, 10, 10, 20, 20, 20, 30, 30, 30, 40, 40, 40],
    )
    .unwrap();
    let cropped = crop_imm_centered(&img, 3, 1);
    assert_eq!(
        cropped.into_raw(),
        vec![10, 10, 10, 20, 20, 20, 30, 30, 30]
    );
    let cropped = crop_imm_centered(&img, 2, 1);
    assert_eq!(cropped.into_raw(), vec![20, 20, 20, 30, 30, 30]);
}

#[test]
fn crop_to_the_full_size_changes_nothing() {
    let img = RgbBuffer::from_raw(2, 2, (0..12).collect()).unwrap();
    assert_eq!(crop_imm_centered(&img, 2, 2), img);
    assert_eq!(crop_imm_centered(&img, 0, 0).dimensions(), (0, 0));
}

#[test]
fn crop_agrees_with_the_image_crate() {
    let theirs = image::RgbImage::from_fn(9, 7, |x, y| image::Rgb([x as u8, y as u8, 1]));
    let expected = image::imageops::crop_imm(&theirs, 2, 1, 5, 4).to_image();
    let cropped = crop_imm_centered(&buffer(&theirs), 5, 4);
    assert_eq!(cropped.dimensions(), (5, 4));
    assert_eq!(cropped.into_raw(), expected.into_raw());
}
