use phomo::RgbBuffer;

#[test]
fn from_raw_wants_three_samples_per_pixel() {
    assert!(RgbBuffer::from_raw(2, 1, vec![1, 2, 3, 4, 5, 6]).is_some());
    assert!(RgbBuffer::from_raw(2, 1, vec![1, 2, 3, 4, 5]).is_none());
    assert!(RgbBuffer::from_raw(2, 1, vec![1, 2, 3, 4, 5, 6, 7]).is_none());
    assert!(RgbBuffer::from_raw(0, 5, vec![]).is_some());
    assert!(RgbBuffer::from_raw(0, 5, vec![1]).is_none());
    assert!(RgbBuffer::from_raw(u32::MAX, u32::MAX, vec![1, 2, 3]).is_none());
}

#[test]
fn from_raw_keeps_the_samples() {
    let img = RgbBuffer::from_raw(2, 2, (0..12).collect()).unwrap();
    assert_eq!(img.width(), 2);
    assert_eq!(img.height(), 2);
    assert_eq!(img.dimensions(), (2, 2));
    assert_eq!(img.get_pixel(0, 0), [0, 1, 2]);
    assert_eq!(img.get_pixel(1, 0), [3, 4, 5]);
    assert_eq!(img.get_pixel(0, 1), [6, 7, 8]);
    assert_eq!(img.get_pixel(1, 1), [9, 10, 11]);
    assert_eq!(img.as_raw(), &(0..12).collect::<Vec<u8>>());
    assert_eq!(img.duplicate(), img);
    assert_eq!(img.into_raw(), (0..12).collect::<Vec<u8>>());
}

#[test]
fn from_pixel_repeats_the_pixel() {
    let img = RgbBuffer::from_pixel(2, 3, [7, 8, 9]);
    assert_eq!(img.dimensions(), (2, 3));
    assert_eq!(
        img.into_raw(),
        vec![7, 8, 9, 7, 8, 9, 7, 8, 9, 7, 8, 9, 7, 8, 9, 7, 8, 9]
    );
}

#[test]
fn new_is_all_zero() {
    let img = RgbBuffer::new(3, 2);
    assert_eq!(img.dimensions(), (3, 2));
    assert_eq!(img.into_raw(), vec![0u8; 18]);
    assert_eq!(RgbBuffer::new(0, 4).into_raw(), Vec::<u8>::new());
}

#[test]
fn buffers_agree_with_the_image_crate() {
    let theirs = image::RgbImage::from_fn(5, 4, |x, y| image::Rgb([x as u8, y as u8, 9]));
    let ours = RgbBuffer::from_raw(5, 4, theirs.clone().into_raw()).unwrap();
    for y in 0..4 {
        for x in 0..5 {
            assert_eq!(ours.get_pixel(x, y), theirs.get_pixel(x, y).0);
        }
    }
    let white = image::RgbImage::from_pixel(3, 3, image::Rgb([255, 255, 255]));
    assert_eq!(
        RgbBuffer::from_pixel(3, 3, [255, 255, 255]).into_raw(),
        white.into_raw()
    );
    assert_eq!(
        RgbBuffer::new(3, 3).into_raw(),
        image::RgbImage::new(3, 3).into_raw()
    );
}
