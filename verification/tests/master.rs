use phomo::error::MasterError;
use phomo::error::PhomoError;
use phomo::Master;
use phomo::RgbBuffer;

// Helper function to create a simple test image
fn create_test_image(width: u32, height: u32) -> RgbBuffer {
    let mut img = image::RgbImage::new(width, height);
    for (x, y, pixel) in img.enumerate_pixels_mut() {
        *pixel = image::Rgb([(x % 256) as u8, (y % 256) as u8, 0]);
    }
    RgbBuffer::from_raw(width, height, img.into_raw()).unwrap()
}

fn check_master(master: Master) {
    // Assert that the image has been loaded
    assert_eq!(master.img.width(), 256);
    assert_eq!(master.img.height(), 256);

    // Assert that the cells have been correctly divided
    assert_eq!(master.cells.len(), 16);
    for region in &master.cells {
        assert_eq!(region.width(), 64);
        assert_eq!(region.height(), 64);
    }

    for (i, cell) in master.cells.iter().enumerate() {
        let column = (i % 4) as u32;
        let row = (i / 4) as u32;
        for y in 0..64 {
            for x in 0..64 {
                assert_eq!(
                    cell.get_pixel(x, y),
                    master.img.get_pixel(column * 64 + x, row * 64 + y)
                );
            }
        }
    }
}

#[test]
fn master_test_from_image_buffer() {
    let img = create_test_image(256, 256);
    let grid_size = (4, 4);
    let master = Master::from_image(img, grid_size).unwrap();

    check_master(master);
}

#[test]
fn master_test_from_image_non_divisible() {
    let img = create_test_image(255, 255);
    let grid_size = (4, 4);

    let master = Master::from_image(img, grid_size).unwrap();
    // Assert that the image has been loaded
    assert_eq!(master.img.width(), 252);
    assert_eq!(master.img.height(), 252);

    assert_eq!(master.cells.len(), 16);
    for region in &master.cells {
        assert_eq!(region.width(), 63);
        assert_eq!(region.height(), 63);
    }
}

#[test]
fn master_test_construct_regions() {
    // Create a 256x256 test image
    let img = create_test_image(256, 256);
    let grid_size = (4, 4);

    let cells = Master::construct_regions(&img, grid_size).unwrap();
    // Assert that the cells have been divided correctly
    assert_eq!(cells.len(), 16); // 4x4 grid
    for region in &cells {
        assert_eq!(region.width(), 64); // Each region should be 64x64
        assert_eq!(region.height(), 64);
    }
}

#[test]
fn master_test_invalid_grid_shape() {
    let img = create_test_image(256, 256);
    // Test invalid grid shape (e.g., non-divisible dimensions)
    // 5 doesn't divide 256 evenly
    let result = Master::construct_regions(&img, (5, 4));
    assert!(result.is_err());
}

#[test]
fn grid_mismatch_names_the_sizes() {
    let img = create_test_image(256, 256);
    match Master::construct_regions(&img, (5, 4)) {
        Err(PhomoError::MasterError(MasterError::GridSizeMismatch {
            grid_size,
            master_dimensions,
            cell_size,
        })) => {
            assert_eq!(grid_size, (5, 4));
            assert_eq!(master_dimensions, (256, 256));
            assert_eq!(cell_size, (51, 64));
        }
        other => panic!("unexpected result {:?}", other.map(|cells| cells.len())),
    }
}

#[test]
fn cells_come_row_after_row() {
    // Two columns, three rows of cells of one pixel each.
    let img = RgbBuffer::from_raw(
        2,
        3,
        vec![0, 0, 0, 1, 1, 1, 2, 2, 2, 3, 3, 3, 4, 4, 4, 5, 5, 5],
    )
    .unwrap();
    let master = Master::from_image(img, (2, 3)).unwrap();
    assert_eq!(master.cell_size, (1, 1));
    assert_eq!(master.grid_size, (2, 3));
    let firsts: Vec<u8> = master.cells.iter().map(|c| c.get_pixel(0, 0)[0]).collect();
    assert_eq!(firsts, vec![0, 1, 2, 3, 4, 5]);
}

#[test]
fn margins_are_cropped_about_the_middle() {
    // Seven columns and a grid of three: one column is dropped, on the
    // right, because half of one rounds down on the left.
    let img = create_test_image(7, 5);
    let master = Master::from_image(img, (3, 2)).unwrap();
    assert_eq!(master.img.dimensions(), (6, 4));
    assert_eq!(master.cell_size, (2, 2));
    assert_eq!(master.img.get_pixel(0, 0), [0, 0, 0]);
    assert_eq!(master.img.get_pixel(5, 3), [5, 3, 0]);
    // Eight columns and a grid of three: two are dropped, one on each side.
    let img = create_test_image(8, 4);
    let master = Master::from_image(img, (3, 2)).unwrap();
    assert_eq!(master.img.dimensions(), (6, 4));
    assert_eq!(master.img.get_pixel(0, 0), [1, 0, 0]);
    assert_eq!(master.img.get_pixel(5, 3), [6, 3, 0]);
    assert_eq!(master.cells[4].get_pixel(0, 0), [3, 2, 0]);
}

#[test]
fn a_grid_finer_than_the_image_has_empty_cells() {
    let img = create_test_image(2, 2);
    let master = Master::from_image(img, (3, 1)).unwrap();
    assert_eq!(master.cell_size, (0, 2));
    assert_eq!(master.img.dimensions(), (0, 2));
    assert_eq!(master.cells.len(), 3);
    assert!(master.cells.iter().all(|c| c.dimensions() == (0, 2)));
}

#[test]
fn cells_agree_with_the_image_crate() {
    let theirs = image::RgbImage::from_fn(6, 4, |x, y| image::Rgb([x as u8, y as u8, 3]));
    let ours = RgbBuffer::from_raw(6, 4, theirs.clone().into_raw()).unwrap();
    let cells = Master::construct_regions(&ours, (3, 2)).unwrap();
    for (i, cell) in cells.iter().enumerate() {
        let x = (i as u32 % 3) * 2;
        let y = (i as u32 / 3) * 2;
        let expected = image::GenericImageView::view(&theirs, x, y, 2, 2).to_image();
        assert_eq!(cell.as_raw(), expected.as_raw());
    }
}

#[test]
fn overlay_sets_the_cells_a_pixel_apart() {
    // A 2x2 grid of 1x1 cells becomes a 3x3 image with a white cross.
    let img = RgbBuffer::from_raw(
        2,
        2,
        vec![1, 1, 1, 2, 2, 2, 3, 3, 3, 4, 4, 4],
    )
    .unwrap();
    let master = Master::from_image(img, (2, 2)).unwrap();
    let overlay = master.overlay_grid().unwrap();
    assert_eq!(overlay.dimensions(), (3, 3));
    let firsts: Vec<u8> = overlay.as_raw().iter().step_by(3).copied().collect();
    assert_eq!(firsts, vec![1, 255, 2, 255, 255, 255, 3, 255, 4]);
}

#[test]
fn overlay_of_larger_cells() {
    let img = create_test_image(128, 256);
    let master = Master::from_image(img, (4, 4)).unwrap();
    let overlay = master.overlay_grid().unwrap();
    assert_eq!(overlay.dimensions(), (131, 259));
    // Cell 5 stands in column 1 of row 1: shifted by one pixel each way.
    assert_eq!(overlay.get_pixel(33, 65), master.cells[5].get_pixel(0, 0));
    assert_eq!(overlay.get_pixel(64, 128), master.cells[5].get_pixel(31, 63));
    assert_eq!(overlay.get_pixel(32, 0), [255, 255, 255]);
    assert_eq!(overlay.get_pixel(0, 64), [255, 255, 255]);
    assert_eq!(overlay.get_pixel(0, 0), [0, 0, 0]);
}
