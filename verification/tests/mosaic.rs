use phomo::blueprint::Cell;
use phomo::error::MosaicError;
use phomo::error::PhomoError;
use phomo::metrics::Metric;
use phomo::metrics::NormL2;
use phomo::norm_l1;
use phomo::norm_l2;
use phomo::solvers::error::SolverError;
use phomo::Auction;
use phomo::Blueprint;
use phomo::DistanceMatrix;
use phomo::Greedy;
use phomo::Hungarian;
use phomo::Master;
use phomo::Mosaic;
use phomo::RgbBuffer;
use phomo::Solve;
use phomo::SolverConfig;

// A 256x256 image whose red and green follow the coordinates.
fn test_master_img() -> RgbBuffer {
    let img = image::RgbImage::from_fn(256, 256, |x, y| image::Rgb([x as u8, y as u8, 0]));
    RgbBuffer::from_raw(256, 256, img.into_raw()).unwrap()
}

// Sixteen 64x64 tiles, each of one colour.
fn test_tiles() -> Vec<RgbBuffer> {
    (0..16u8)
        .map(|i| RgbBuffer::from_pixel(64, 64, [i * 16, 255 - i * 16, i]))
        .collect()
}

fn plain(width: u32, height: u32, shade: u8) -> RgbBuffer {
    RgbBuffer::from_pixel(width, height, [shade, shade, shade])
}

// A 2x2 grid of 1x1 cells with shades 10, 20, 30, 40 and four tiles.
fn small_mosaic() -> Mosaic {
    let master = RgbBuffer::from_raw(
        2,
        2,
        vec![10, 10, 10, 20, 20, 20, 30, 30, 30, 40, 40, 40],
    )
    .unwrap();
    let tiles = vec![
        plain(1, 1, 41),
        plain(1, 1, 29),
        plain(1, 1, 12),
        plain(1, 1, 20),
    ];
    Mosaic::from_images(master, tiles, (2, 2)).unwrap()
}

#[test]
fn mosaic_test_mosaic_creation_from_valid_data() {
    let grid_size = (4, 4);
    let mosaic = Mosaic::from_images(test_master_img(), test_tiles(), grid_size);
    // Check if the mosaic was created successfully
    assert!(mosaic.is_ok());
    let mosaic = mosaic.unwrap();
    // Check that the master image has the expected dimensions
    assert_eq!(mosaic.master.img.width(), 256);
    assert_eq!(mosaic.master.img.height(), 256);
    // Check that the number of tiles matches the number of grid cells
    assert!(mosaic.tiles.len() >= mosaic.master.cells.len());
    // Make sure the tiles have the same size as the master cells
    assert!(mosaic
        .tiles
        .iter()
        .all(|tile| tile.dimensions() == mosaic.master.cell_size));
}

#[test]
fn mosaic_test_mosaic_creation_with_mismatched_tile_sizes() {
    // 5x5 grid which will not work with a 256x256 master image and 64x64 tiles
    let grid_size = (5, 5);
    // Attempt to create a mosaic and expect an error due to tile size mismatch
    let mosaic = Mosaic::from_images(test_master_img(), test_tiles(), grid_size);
    assert!(mosaic.is_err());
}

#[test]
fn mismatched_tile_is_named() {
    let mut tiles = test_tiles();
    tiles[3] = plain(64, 63, 0);
    tiles[5] = plain(1, 1, 0);
    match Mosaic::from_images(test_master_img(), tiles, (4, 4)) {
        Err(PhomoError::MosaicError(e)) => assert_eq!(
            e,
            MosaicError::TileSizeMismatch {
                expected: (64, 64),
                found: (64, 63)
            }
        ),
        other => panic!("unexpected result {:?}", other.is_ok()),
    }
}

#[test]
fn mosaic_test_distance_matrix() {
    let mosaic = Mosaic::from_images(test_master_img(), test_tiles(), (4, 4)).unwrap();
    let distance_matrix = mosaic.distance_matrix();
    assert_eq!(
        distance_matrix.data.len(),
        mosaic.master.cells.len() * mosaic.tiles.len()
    );
}

#[test]
fn distance_matrix_has_a_row_per_cell() {
    let mosaic = small_mosaic();
    let costs = mosaic.distance_matrix();
    assert_eq!(costs.rows, 4);
    assert_eq!(costs.columns, 4);
    // Row after row: the distance of each tile to the cell, three samples each.
    assert_eq!(
        costs.data,
        vec![
            93, 57, 6, 30, //
            63, 27, 24, 0, //
            33, 3, 54, 30, //
            3, 33, 84, 60,
        ]
    );
    let squared = mosaic.distance_matrix_with_metric(norm_l2);
    assert_eq!(squared.get(0, 2), 3 * 2 * 2);
    assert_eq!(squared.get(3, 0), 3);
    assert_eq!(mosaic.distance_matrix_with_metric(norm_l1).data, costs.data);
    // The metric is handed the tile first and the cell second.
    let firsts = mosaic.distance_matrix_with_metric(|tile, _cell| tile.get_pixel(0, 0)[0] as i64);
    assert_eq!(firsts.data[..4], [41, 29, 12, 20]);
    let seconds = mosaic.distance_matrix_with_metric(|_tile, cell| cell.get_pixel(0, 0)[0] as i64);
    assert_eq!(seconds.data[..5], [10, 10, 10, 10, 20]);
    let by_struct = mosaic.distance_matrix_with_metric(|tile, cell| NormL2.compute(tile, cell));
    assert_eq!(by_struct.data, squared.data);
}

#[test]
fn test_too_few_tiles() {
    let tiles = test_tiles().into_iter().take(2).collect::<Vec<_>>();

    let mosaic = Mosaic::from_images(test_master_img(), tiles, (4, 4)).unwrap();
    let d_matrix = mosaic.distance_matrix();
    let result = mosaic.build(d_matrix, SolverConfig::default());
    assert!(result.is_err());
}

#[test]
fn too_few_tiles_are_counted() {
    let tiles = test_tiles().into_iter().take(2).collect::<Vec<_>>();
    let mosaic = Mosaic::from_images(test_master_img(), tiles, (4, 4)).unwrap();
    match mosaic.build(mosaic.distance_matrix(), SolverConfig::default()) {
        Err(PhomoError::MosaicError(e)) => assert_eq!(
            e,
            MosaicError::InsufficientTiles {
                provided: 2,
                required: 16,
                max_occurrences: 1
            }
        ),
        other => panic!("unexpected result {:?}", other.is_ok()),
    }
    match mosaic.build_blueprint(
        mosaic.distance_matrix(),
        SolverConfig {
            max_tile_occurrences: 7,
        },
    ) {
        Err(PhomoError::MosaicError(e)) => assert_eq!(
            e,
            MosaicError::InsufficientTiles {
                provided: 2,
                required: 16,
                max_occurrences: 7
            }
        ),
        other => panic!("unexpected result {:?}", other.is_ok()),
    }
}

#[test]
fn test_too_few_tiles_unless_repeats() {
    // Two tiles could fill sixteen cells at eight uses each, but the
    // solvers want a column for every use of every row.
    let tiles = test_tiles().into_iter().take(2).collect::<Vec<_>>();

    let mosaic = Mosaic::from_images(test_master_img(), tiles, (4, 4)).unwrap();
    let d_matrix = mosaic.distance_matrix();
    let result = mosaic.build(
        d_matrix,
        SolverConfig {
            max_tile_occurrences: 8,
        },
    );
    assert!(result.is_err());
    match result {
        Err(PhomoError::SolverError(e)) => assert_eq!(
            e,
            SolverError::TooFewColumns {
                rows: 16,
                columns: 2
            }
        ),
        other => panic!("unexpected result {:?}", other.is_ok()),
    }
}

#[test]
fn sixteen_tiles_fill_sixteen_cells() {
    let mosaic = Mosaic::from_images(test_master_img(), test_tiles(), (4, 4)).unwrap();
    let costs = mosaic.distance_matrix();
    let mut solver = Hungarian::new(SolverConfig::default());
    assert!(solver.can_solve(&costs));
    let mut assignment = costs.assignments(&mut solver).unwrap();
    assert_eq!(assignment.len(), 16);
    assignment.sort();
    assert_eq!(assignment, (0..16).collect::<Vec<usize>>());
    let img = mosaic.build(costs, SolverConfig::default()).unwrap();
    assert_eq!(img.dimensions(), (256, 256));
}

#[test]
fn build_puts_the_closest_tiles() {
    let mosaic = small_mosaic();
    let img = mosaic
        .build(mosaic.distance_matrix(), SolverConfig::default())
        .unwrap();
    assert_eq!(
        img.into_raw(),
        vec![12, 12, 12, 20, 20, 20, 29, 29, 29, 41, 41, 41]
    );
    for img in [
        mosaic
            .build_with_solver(
                mosaic.distance_matrix(),
                Greedy::new(SolverConfig::default()),
            )
            .unwrap(),
        mosaic
            .build_with_solver(
                mosaic.distance_matrix(),
                Auction::new(1, SolverConfig::default()),
            )
            .unwrap(),
    ] {
        assert_eq!(
            img.into_raw(),
            vec![12, 12, 12, 20, 20, 20, 29, 29, 29, 41, 41, 41]
        );
    }
}

#[test]
fn render_copies_tiles_to_their_cells() {
    // A 3x2 grid of 2x1 cells.
    let master = RgbBuffer::new(6, 2);
    let tiles = vec![
        RgbBuffer::from_raw(2, 1, vec![1, 1, 1, 2, 2, 2]).unwrap(),
        RgbBuffer::from_raw(2, 1, vec![3, 3, 3, 4, 4, 4]).unwrap(),
    ];
    let mosaic = Mosaic::from_images(master, tiles, (3, 2)).unwrap();
    let img = mosaic.render(vec![0, 1, 1, 1, 0, 3]).unwrap();
    assert_eq!(img.dimensions(), (6, 2));
    let firsts: Vec<u8> = img.as_raw().iter().step_by(3).copied().collect();
    assert_eq!(firsts, vec![1, 2, 3, 4, 3, 4, 3, 4, 1, 2, 3, 4]);
}

#[test]
fn render_wants_one_assignment_per_cell() {
    let mosaic = small_mosaic();
    match mosaic.render(vec![0, 1, 2]) {
        Err(PhomoError::MosaicError(e)) => assert_eq!(
            e,
            MosaicError::InvalidAssignmentsLength {
                expected: 4,
                found: 3
            }
        ),
        other => panic!("unexpected result {:?}", other.is_ok()),
    }
    match mosaic.blueprint(&vec![0, 1, 2, 3, 0]) {
        Err(PhomoError::MosaicError(e)) => assert_eq!(
            e,
            MosaicError::InvalidAssignmentsLength {
                expected: 4,
                found: 5
            }
        ),
        other => panic!("unexpected result {:?}", other.is_ok()),
    }
}

#[test]
fn render_without_tiles_names_the_tile() {
    let mosaic = Mosaic::from_images(RgbBuffer::new(2, 2), vec![], (2, 2)).unwrap();
    match mosaic.render(vec![5, 1, 2, 3]) {
        Err(PhomoError::MosaicError(e)) => assert_eq!(e, MosaicError::InvalidTileIndex(5)),
        other => panic!("unexpected result {:?}", other.is_ok()),
    }
    match mosaic.blueprint(&vec![5, 1, 2, 3]) {
        Err(PhomoError::MosaicError(e)) => assert_eq!(e, MosaicError::InvalidTileIndex(5)),
        other => panic!("unexpected result {:?}", other.is_ok()),
    }
}

#[test]
fn matrix_of_the_wrong_shape_is_refused() {
    let mosaic = small_mosaic();
    let short = DistanceMatrix::new(3, 4, vec![0; 12]).unwrap();
    match mosaic.build(short, SolverConfig::default()) {
        Err(PhomoError::MosaicError(e)) => assert_eq!(
            e,
            MosaicError::DistanceMatrixSizeMismatch {
                expected: (4, 4),
                found: (3, 4)
            }
        ),
        other => panic!("unexpected result {:?}", other.is_ok()),
    }
    let narrow = DistanceMatrix::new(4, 3, vec![0; 12]).unwrap();
    assert!(mosaic.check_distance_matrix(&narrow).is_err());
    let wide = DistanceMatrix::new(4, 5, vec![0; 20]).unwrap();
    assert!(mosaic.check_distance_matrix(&wide).is_ok());
}

#[test]
fn blueprint_lists_the_places() {
    let master = RgbBuffer::new(6, 4);
    let tiles = vec![plain(2, 2, 1), plain(2, 2, 2), plain(2, 2, 3)];
    let mosaic = Mosaic::from_images(master, tiles, (3, 2)).unwrap();
    let plan = mosaic.blueprint(&vec![0, 1, 2, 3, 4, 5]).unwrap();
    assert_eq!(
        plan,
        Blueprint {
            cells: vec![
                Cell {
                    tile_index: 0,
                    x: 0,
                    y: 0
                },
                Cell {
                    tile_index: 1,
                    x: 2,
                    y: 0
                },
                Cell {
                    tile_index: 2,
                    x: 4,
                    y: 0
                },
                Cell {
                    tile_index: 0,
                    x: 0,
                    y: 2
                },
                Cell {
                    tile_index: 1,
                    x: 2,
                    y: 2
                },
                Cell {
                    tile_index: 2,
                    x: 4,
                    y: 2
                },
            ],
            cell_width: 2,
            cell_height: 2,
            grid_width: 3,
            grid_height: 2,
        }
    );
}

#[test]
fn rendering_the_plan_gives_the_mosaic() {
    let mosaic = Mosaic::from_images(test_master_img(), test_tiles(), (4, 4)).unwrap();
    let assignment = Hungarian::new(SolverConfig::default())
        .solve(&mosaic.distance_matrix())
        .unwrap();
    let direct = mosaic.render(assignment.clone()).unwrap();
    let plan = mosaic.blueprint(&assignment).unwrap();
    let rendered = plan.render(&mosaic.master.img, &mosaic.tiles).unwrap();
    assert_eq!(rendered, direct);
    // Pixel for pixel: the tile of the cell, at the place within the cell.
    for y in 0..256u32 {
        for x in 0..256u32 {
            let cell = (y / 64 * 4 + x / 64) as usize;
            let tile = &mosaic.tiles[assignment[cell] % 16];
            assert_eq!(direct.get_pixel(x, y), tile.get_pixel(x % 64, y % 64));
        }
    }
    let built = mosaic
        .build_blueprint(mosaic.distance_matrix(), SolverConfig::default())
        .unwrap();
    assert_eq!(built, plan);
    let built = mosaic
        .build_blueprint_with_solver(
            mosaic.distance_matrix(),
            Hungarian::new(SolverConfig::default()),
        )
        .unwrap();
    assert_eq!(built, plan);
}

#[test]
fn rendering_a_plan_refuses_a_missing_tile() {
    let plan = Blueprint {
        cells: vec![
            Cell {
                tile_index: 0,
                x: 0,
                y: 0,
            },
            Cell {
                tile_index: 2,
                x: 1,
                y: 0,
            },
        ],
        cell_width: 1,
        cell_height: 1,
        grid_width: 2,
        grid_height: 1,
    };
    let tiles = vec![plain(1, 1, 1), plain(1, 1, 2)];
    match plan.render(&RgbBuffer::new(2, 1), &tiles) {
        Err(PhomoError::MosaicError(e)) => assert_eq!(e, MosaicError::InvalidTileIndex(2)),
        other => panic!("unexpected result {:?}", other.is_ok()),
    }
}

#[test]
fn rendering_a_plan_refuses_a_tile_off_the_canvas() {
    let plan = Blueprint {
        cells: vec![Cell {
            tile_index: 0,
            x: 1,
            y: 0,
        }],
        cell_width: 2,
        cell_height: 1,
        grid_width: 1,
        grid_height: 1,
    };
    let tiles = vec![plain(2, 1, 9)];
    assert!(matches!(
        plan.render(&RgbBuffer::new(2, 1), &tiles),
        Err(PhomoError::ImageError(_))
    ));
    // One column to the left it fits.
    let plan = Blueprint {
        cells: vec![Cell {
            tile_index: 0,
            x: 0,
            y: 0,
        }],
        ..plan
    };
    assert_eq!(
        plan.render(&RgbBuffer::new(2, 1), &tiles)
            .unwrap()
            .into_raw(),
        vec![9; 6]
    );
}

#[test]
fn later_cells_of_a_plan_cover_earlier_ones() {
    let plan = Blueprint {
        cells: vec![
            Cell {
                tile_index: 0,
                x: 0,
                y: 0,
            },
            Cell {
                tile_index: 1,
                x: 1,
                y: 0,
            },
        ],
        cell_width: 2,
        cell_height: 1,
        grid_width: 2,
        grid_height: 1,
    };
    let tiles = vec![plain(2, 1, 5), plain(2, 1, 7)];
    let img = plan.render(&RgbBuffer::new(4, 1), &tiles).unwrap();
    assert_eq!(img.into_raw(), vec![5, 5, 5, 7, 7, 7, 7, 7, 7, 0, 0, 0]);
}

#[test]
fn rendering_agrees_with_the_image_crate() {
    let tile = image::RgbImage::from_fn(2, 2, |x, y| image::Rgb([x as u8 + 1, y as u8 + 1, 7]));
    let mut expected = image::RgbImage::new(5, 4);
    image::GenericImage::copy_from(&mut expected, &tile, 3, 1).unwrap();
    let plan = Blueprint {
        cells: vec![Cell {
            tile_index: 0,
            x: 3,
            y: 1,
        }],
        cell_width: 2,
        cell_height: 2,
        grid_width: 1,
        grid_height: 1,
    };
    let tiles = vec![RgbBuffer::from_raw(2, 2, tile.into_raw()).unwrap()];
    let img = plan.render(&RgbBuffer::new(5, 4), &tiles).unwrap();
    assert_eq!(img.into_raw(), expected.into_raw());
}

#[test]
fn a_grid_that_differs_from_the_master_keeps_the_fields() {
    let master = Master::from_image(RgbBuffer::new(4, 4), (2, 2)).unwrap();
    let mosaic = Mosaic::new(master, vec![plain(2, 2, 1)], (2, 2)).unwrap();
    assert_eq!(mosaic.grid_size, (2, 2));
    assert_eq!(mosaic.tiles.len(), 1);
}

#[test]
fn a_mosaic_without_tiles_has_too_few_columns() {
    let mosaic = Mosaic::from_images(RgbBuffer::new(2, 2), vec![], (2, 2)).unwrap();
    let costs = mosaic.distance_matrix();
    assert_eq!((costs.rows, costs.columns), (4, 0));
    match mosaic.build_with_solver(costs, Greedy::new(SolverConfig::default())) {
        Err(PhomoError::SolverError(e)) => assert_eq!(
            e,
            SolverError::TooFewColumns {
                rows: 4,
                columns: 0
            }
        ),
        other => panic!("unexpected result {:?}", other.is_ok()),
    }
    match mosaic.build(mosaic.distance_matrix(), SolverConfig::default()) {
        Err(PhomoError::MosaicError(e)) => assert_eq!(
            e,
            MosaicError::InsufficientTiles {
                provided: 0,
                required: 4,
                max_occurrences: 1
            }
        ),
        other => panic!("unexpected result {:?}", other.is_ok()),
    }
}
