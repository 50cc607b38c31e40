use phomo::Greedy;
use phomo::Mosaic;
use phomo::RgbBuffer;
use phomo::SolverConfig;

// A 256x256 image whose colours follow the coordinates.
fn master_img() -> RgbBuffer {
    let img = image::RgbImage::from_fn(256, 256, |x, y| {
        image::Rgb([x as u8, y as u8, (x ^ y) as u8])
    });
    RgbBuffer::from_raw(256, 256, img.into_raw()).unwrap()
}

// `count` tiles of 16x16 pixels, each of one colour and with one pixel that
// tells it apart from the others.
fn tile_imgs(count: u32) -> Vec<RgbBuffer> {
    (0..count)
        .map(|i| {
            let shade = [(i * 37 % 256) as u8, (i * 91 % 256) as u8, (i * 13 % 256) as u8];
            let mut img = image::RgbImage::from_pixel(16, 16, image::Rgb(shade));
            img.put_pixel(0, 0, image::Rgb([(i / 256) as u8, (i % 256) as u8, 0]));
            RgbBuffer::from_raw(16, 16, img.into_raw()).unwrap()
        })
        .collect()
}

fn setup_imgs(count: u32) -> (Vec<RgbBuffer>, RgbBuffer) {
    (tile_imgs(count), master_img())
}

// Every cell of the mosaic shows one of the tiles, and no tile is shown
// more than `limit` times.
fn check_mosaic(mosaic: &Mosaic, mosaic_img: &RgbBuffer, limit: usize) {
    let mut uses = vec![0usize; mosaic.tiles.len()];
    for cell in 0..256u32 {
        let (x, y) = (cell % 16 * 16, cell / 16 * 16);
        let mark = mosaic_img.get_pixel(x, y);
        let tile = mark[0] as usize * 256 + mark[1] as usize;
        uses[tile] += 1;
        for dy in 0..16 {
            for dx in 0..16 {
                assert_eq!(
                    mosaic_img.get_pixel(x + dx, y + dy),
                    mosaic.tiles[tile].get_pixel(dx, dy)
                );
            }
        }
    }
    assert!(uses.iter().all(|&n| n <= limit));
}

#[test]
fn build_mosaic() {
    let (tile_imgs, master_img) = setup_imgs(300);

    let result = Mosaic::from_images(master_img, tile_imgs, (16, 16));
    assert!(result.is_ok());
    let mosaic = result.unwrap();

    let d_matrix = mosaic.distance_matrix();
    assert_eq!(
        d_matrix.data.len(),
        mosaic.master.cells.len() * mosaic.tiles.len()
    );

    let mosaic_img = mosaic.build(d_matrix, SolverConfig::default()).unwrap();
    assert_eq!(mosaic_img.dimensions(), mosaic.master.img.dimensions());
    check_mosaic(&mosaic, &mosaic_img, 1);
}

#[test]
fn build_mosaic_greedy() {
    let (tile_imgs, master_img) = setup_imgs(300);

    let result = Mosaic::from_images(master_img, tile_imgs, (16, 16));
    assert!(result.is_ok());
    let mosaic = result.unwrap();

    let d_matrix = mosaic.distance_matrix();
    assert_eq!(
        d_matrix.data.len(),
        mosaic.master.cells.len() * mosaic.tiles.len()
    );

    let mosaic_img = mosaic
        .build_with_solver(d_matrix, Greedy::new(SolverConfig::default()))
        .unwrap();
    assert_eq!(mosaic_img.dimensions(), mosaic.master.img.dimensions());
    check_mosaic(&mosaic, &mosaic_img, 1);
}

#[test]
fn mosaic_build_mosaic_repeats() {
    let (tile_imgs, master_img) = setup_imgs(520);

    let result = Mosaic::from_images(master_img, tile_imgs, (16, 16));
    assert!(result.is_ok());
    let mosaic = result.unwrap();

    let d_matrix = mosaic.distance_matrix();
    assert_eq!(
        d_matrix.data.len(),
        mosaic.master.cells.len() * mosaic.tiles.len()
    );

    let config = SolverConfig {
        max_tile_occurrences: 2,
    };
    let mosaic_img = mosaic.build(d_matrix, config).unwrap();
    assert_eq!(mosaic_img.dimensions(), mosaic.master.img.dimensions());
    check_mosaic(&mosaic, &mosaic_img, 2);
}

#[test]
fn build_mosaic_greedy_repeats() {
    let (tile_imgs, master_img) = setup_imgs(520);

    let result = Mosaic::from_images(master_img, tile_imgs, (16, 16));
    assert!(result.is_ok());
    let mosaic = result.unwrap();

    let d_matrix = mosaic.distance_matrix();
    assert_eq!(
        d_matrix.data.len(),
        mosaic.master.cells.len() * mosaic.tiles.len()
    );

    let config = SolverConfig {
        max_tile_occurrences: 2,
    };
    let mosaic_img = mosaic
        .build_with_solver(d_matrix, Greedy::new(config))
        .unwrap();
    assert_eq!(mosaic_img.dimensions(), mosaic.master.img.dimensions());
    check_mosaic(&mosaic, &mosaic_img, 2);
}
