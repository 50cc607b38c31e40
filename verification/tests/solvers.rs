use phomo::error::PhomoError;
use phomo::lsap;
use phomo::solvers::auction::find_best_and_second_best;
use phomo::solvers::auction::find_two_max_values;
use phomo::solvers::auction::first_eligible;
use phomo::solvers::error::HungarianError;
use phomo::solvers::error::SolverError;
use phomo::solvers::greedy::best_available;
use phomo::solvers::greedy::CandidateQueue;
use phomo::Auction;
use phomo::DistanceMatrix;
use phomo::Greedy;
use phomo::Hungarian;
use phomo::Solve;
use phomo::SolverConfig;

fn matrix(rows: usize, columns: usize, data: Vec<i64>) -> DistanceMatrix {
    DistanceMatrix::new(rows, columns, data).unwrap()
}

fn config(max_tile_occurrences: usize) -> SolverConfig {
    SolverConfig {
        max_tile_occurrences,
    }
}

fn total_cost(m: &DistanceMatrix, assignment: &[usize]) -> i64 {
    assignment
        .iter()
        .enumerate()
        .map(|(row, &column)| m.get(row, column % m.columns))
        .sum()
}

fn check_valid(m: &DistanceMatrix, limit: usize, assignment: &[usize]) {
    assert_eq!(assignment.len(), m.rows);
    let mut uses = vec![0usize; m.columns];
    for &column in assignment {
        assert!(column < m.columns * limit);
        uses[column % m.columns] += 1;
    }
    assert!(uses.iter().all(|&n| n <= limit));
}

// A pseudo-random matrix: a linear congruential sequence, reduced to small costs.
fn scrambled(rows: usize, columns: usize, seed: u64) -> DistanceMatrix {
    let mut state = seed;
    let mut data = Vec::with_capacity(rows * columns);
    for _ in 0..rows * columns {
        state = state
            .wrapping_mul(6364136223846793005)
            .wrapping_add(1442695040888963407);
        data.push(((state >> 33) % 1000) as i64);
    }
    matrix(rows, columns, data)
}

fn optimum_by_search(m: &DistanceMatrix) -> i64 {
    fn go(m: &DistanceMatrix, row: usize, used: &mut Vec<bool>, so_far: i64, best: &mut i64) {
        if row == m.rows {
            if so_far < *best {
                *best = so_far;
            }
            return;
        }
        for column in 0..m.columns {
            if !used[column] {
                used[column] = true;
                go(m, row + 1, used, so_far + m.get(row, column), best);
                used[column] = false;
            }
        }
    }
    let mut best = i64::MAX;
    go(m, 0, &mut vec![false; m.columns], 0, &mut best);
    best
}

#[test]
fn hungarian_finds_the_unique_optimum() {
    let m = matrix(3, 3, vec![4, 1, 3, 2, 0, 5, 3, 2, 2]);
    let assignment = Hungarian::new(config(1)).solve(&m).unwrap();
    assert_eq!(assignment, vec![1, 0, 2]);
    assert_eq!(total_cost(&m, &assignment), 5);
}

#[test]
fn lsap_finds_the_unique_optimum() {
    let m = matrix(3, 3, vec![4, 1, 3, 2, 0, 5, 3, 2, 2]);
    assert_eq!(lsap::solve(&m).unwrap(), vec![1, 0, 2]);
}

#[test]
fn lsap_prefers_a_free_column_among_equals() {
    // All costs are equal. Row 0 scans columns 0 and 1 and keeps the later
    // free one; row 1 then finds column 0 free.
    let m = matrix(2, 2, vec![0, 0, 0, 0]);
    assert_eq!(lsap::solve(&m).unwrap(), vec![1, 0]);
}

#[test]
fn lsap_reroutes_a_matched_row() {
    // Row 0 takes column 0. Row 1 wants column 0 too and can only have it
    // if row 0 moves to column 1.
    let m = matrix(2, 2, vec![1, 2, 1, 9]);
    let assignment = lsap::solve(&m).unwrap();
    assert_eq!(assignment, vec![1, 0]);
    assert_eq!(total_cost(&m, &assignment), 3);
}

#[test]
fn lsap_with_more_rows_than_columns_is_infeasible() {
    let m = matrix(3, 2, vec![1, 2, 3, 4, 5, 6]);
    assert_eq!(lsap::solve(&m), Err(HungarianError::Infeasible));
}

#[test]
fn lsap_leaves_spare_columns_unused() {
    let m = matrix(2, 4, vec![9, 9, 1, 9, 9, 2, 9, 9]);
    assert_eq!(lsap::solve(&m).unwrap(), vec![2, 1]);
}

#[test]
fn hungarian_matches_exhaustive_search() {
    for seed in 0..40u64 {
        let rows = 1 + (seed % 5) as usize;
        let columns = rows + (seed % 3) as usize;
        let m = scrambled(rows, columns, seed);
        let mut solver = Hungarian::new(config(1));
        assert!(solver.can_solve(&m));
        let assignment = solver.solve(&m).unwrap();
        check_valid(&m, 1, &assignment);
        assert_eq!(total_cost(&m, &assignment), optimum_by_search(&m));
    }
}

#[test]
fn hungarian_uses_a_tile_as_often_as_allowed() {
    let m = matrix(2, 4, vec![1, 2, 9, 9, 1, 3, 9, 9]);
    let assignment = Hungarian::new(config(2)).solve(&m).unwrap();
    check_valid(&m, 2, &assignment);
    let tiles: Vec<usize> = assignment.iter().map(|c| c % 4).collect();
    assert_eq!(tiles, vec![0, 0]);
    assert_eq!(total_cost(&m, &assignment), 2);
}

#[test]
fn greedy_takes_the_cheapest_pair_first() {
    let m = matrix(2, 2, vec![1, 2, 1, 3]);
    let assignment = Greedy::new(config(1)).solve(&m).unwrap();
    assert_eq!(assignment, vec![0, 1]);
    assert_eq!(total_cost(&m, &assignment), 4);
}

#[test]
fn greedy_looks_again_when_its_tile_is_used_up() {
    // All three rows want tile 0. Row 0 gets it; rows 1 and 2 look again.
    let m = matrix(3, 3, vec![1, 5, 6, 1, 4, 2, 1, 3, 7]);
    let assignment = Greedy::new(config(1)).solve(&m).unwrap();
    assert_eq!(assignment, vec![0, 2, 1]);
}

#[test]
fn greedy_uses_a_tile_as_often_as_allowed() {
    let m = matrix(2, 4, vec![1, 2, 9, 9, 1, 3, 9, 9]);
    let assignment = Greedy::new(config(2)).solve(&m).unwrap();
    assert_eq!(assignment, vec![0, 0]);
}

#[test]
fn greedy_can_be_configured_again() {
    let m = matrix(2, 4, vec![1, 2, 9, 9, 1, 3, 9, 9]);
    let mut solver = Greedy::new(config(1));
    assert_eq!(solver.solve(&m).unwrap(), vec![0, 1]);
    solver.configure(config(2));
    assert_eq!(solver.solve(&m).unwrap(), vec![0, 0]);
}

#[test]
fn auction_raises_the_price_of_a_taken_tile() {
    let m = matrix(2, 2, vec![1, 2, 1, 3]);
    let assignment = Auction::new(1, config(1)).solve(&m).unwrap();
    assert_eq!(assignment, vec![0, 1]);
}

#[test]
fn auction_uses_a_tile_as_often_as_allowed() {
    // Row 0 values the tiles at -1, -2, -9, -9 and bids 2 for tile 0. Row 1
    // then values tiles 0 and 1 both at -3 and takes the lower one.
    let m = matrix(2, 4, vec![1, 2, 9, 9, 1, 3, 9, 9]);
    let assignment = Auction::new(1, config(2)).solve(&m).unwrap();
    assert_eq!(assignment, vec![0, 0]);
}

#[test]
fn auction_price_moves_the_next_row() {
    // Row 0 bids 1 + 3 for tile 0, whose price becomes 4. Row 1 then values
    // tile 0 at -5 and tile 1 at -4 and takes tile 1.
    let m = matrix(2, 4, vec![1, 2, 9, 9, 1, 4, 9, 9]);
    let assignment = Auction::new(3, config(2)).solve(&m).unwrap();
    assert_eq!(assignment, vec![0, 1]);
}

#[test]
fn auction_takes_the_only_tile_left() {
    let m = matrix(1, 1, vec![7]);
    assert_eq!(Auction::new(1, config(1)).solve(&m).unwrap(), vec![0]);
}

#[test]
fn auction_default_bids_one() {
    let solver = Auction::default();
    assert_eq!(solver.epsilon, 1);
    assert_eq!(solver.config.max_tile_occurrences, 1);
}

#[test]
fn default_config_uses_every_tile_once() {
    assert_eq!(SolverConfig::default().max_tile_occurrences, 1);
    assert_eq!(Hungarian::default().config.max_tile_occurrences, 1);
    assert_eq!(Greedy::default().config.max_tile_occurrences, 1);
}

#[test]
fn every_solver_returns_a_valid_assignment() {
    for seed in 0..30u64 {
        let rows = 1 + (seed % 4) as usize;
        let limit = 1 + (seed % 3) as usize;
        let columns = rows * limit + (seed % 2) as usize;
        let m = scrambled(rows, columns, seed + 100);
        let exact = Hungarian::new(config(limit)).solve(&m).unwrap();
        let fast = Greedy::new(config(limit)).solve(&m).unwrap();
        let bids = Auction::new(1, config(limit)).solve(&m).unwrap();
        check_valid(&m, limit, &exact);
        check_valid(&m, limit, &fast);
        check_valid(&m, limit, &bids);
        assert!(fast.iter().all(|&c| c < columns));
        assert!(bids.iter().all(|&c| c < columns));
    }
}

#[test]
fn the_exact_solver_costs_least() {
    for seed in 0..30u64 {
        let rows = 1 + (seed % 5) as usize;
        let limit = 1 + (seed % 2) as usize;
        let columns = rows * limit + (seed % 3) as usize;
        let m = scrambled(rows, columns, seed + 500);
        let exact = Hungarian::new(config(limit)).solve(&m).unwrap();
        let fast = Greedy::new(config(limit)).solve(&m).unwrap();
        let bids = Auction::new(1, config(limit)).solve(&m).unwrap();
        assert!(total_cost(&m, &exact) <= total_cost(&m, &fast));
        assert!(total_cost(&m, &exact) <= total_cost(&m, &bids));
    }
}

#[test]
fn the_exact_solver_beats_the_fast_one_here() {
    let m = matrix(2, 2, vec![1, 2, 1, 3]);
    let exact = Hungarian::new(config(1)).solve(&m).unwrap();
    let fast = Greedy::new(config(1)).solve(&m).unwrap();
    assert_eq!(total_cost(&m, &exact), 3);
    assert_eq!(total_cost(&m, &fast), 4);
}

#[test]
fn solving_twice_gives_the_same_assignment() {
    let m = scrambled(6, 8, 7);
    let mut solver = Hungarian::new(config(1));
    let first = solver.solve(&m).unwrap();
    let second = solver.solve(&m).unwrap();
    assert_eq!(first, second);
    let ties = matrix(3, 3, vec![5; 9]);
    assert_eq!(
        Hungarian::new(config(1)).solve(&ties).unwrap(),
        Hungarian::new(config(1)).solve(&ties).unwrap()
    );
}

#[test]
fn too_few_columns_are_refused_by_every_solver() {
    let m = matrix(3, 2, vec![1, 2, 3, 4, 5, 6]);
    let expected = SolverError::TooFewColumns {
        rows: 3,
        columns: 2,
    };
    match Hungarian::new(config(1)).solve(&m) {
        Err(PhomoError::SolverError(e)) => assert_eq!(e, expected),
        other => panic!("unexpected result {:?}", other),
    }
    match Greedy::new(config(1)).solve(&m) {
        Err(PhomoError::SolverError(e)) => assert_eq!(e, expected),
        other => panic!("unexpected result {:?}", other),
    }
    match Auction::new(1, config(1)).solve(&m) {
        Err(PhomoError::SolverError(e)) => assert_eq!(e, expected),
        other => panic!("unexpected result {:?}", other),
    }
}

#[test]
fn columns_must_cover_rows_times_occurrences() {
    // Three columns would do for two rows, but not for two rows of which
    // each tile may take two.
    let m = matrix(2, 3, vec![1, 2, 3, 4, 5, 6]);
    let expected = SolverError::TooFewColumns {
        rows: 2,
        columns: 3,
    };
    match Hungarian::new(config(2)).solve(&m) {
        Err(PhomoError::SolverError(e)) => assert_eq!(e, expected),
        other => panic!("unexpected result {:?}", other),
    }
    match Greedy::new(config(2)).solve(&m) {
        Err(PhomoError::SolverError(e)) => assert_eq!(e, expected),
        other => panic!("unexpected result {:?}", other),
    }
    match Auction::new(1, config(2)).solve(&m) {
        Err(PhomoError::SolverError(e)) => assert_eq!(e, expected),
        other => panic!("unexpected result {:?}", other),
    }
    assert!(Hungarian::new(config(1)).solve(&m).is_ok());
}

#[test]
fn no_occurrences_is_a_configuration_error() {
    let m = matrix(1, 1, vec![1]);
    match Hungarian::new(config(0)).solve(&m) {
        Err(PhomoError::SolverError(e)) => assert_eq!(e, SolverError::ConfigError),
        other => panic!("unexpected result {:?}", other),
    }
    match Greedy::new(config(0)).solve(&m) {
        Err(PhomoError::SolverError(e)) => assert_eq!(e, SolverError::ConfigError),
        other => panic!("unexpected result {:?}", other),
    }
    match Auction::new(1, config(0)).solve(&m) {
        Err(PhomoError::SolverError(e)) => assert_eq!(e, SolverError::ConfigError),
        other => panic!("unexpected result {:?}", other),
    }
}

#[test]
fn assignments_runs_the_solver() {
    let m = matrix(3, 3, vec![4, 1, 3, 2, 0, 5, 3, 2, 2]);
    let mut solver = Hungarian::new(config(1));
    assert_eq!(m.assignments(&mut solver).unwrap(), vec![1, 0, 2]);
}

#[test]
fn solvers_test_their_limits() {
    let small = matrix(2, 2, vec![1, 2, 3, 4]);
    let negative = matrix(2, 2, vec![1, -2, 3, 4]);
    let huge = matrix(2, 2, vec![1, 2, 3, i64::MAX]);
    assert!(Hungarian::new(config(1)).can_solve(&small));
    assert!(!Hungarian::new(config(1)).can_solve(&negative));
    assert!(!Hungarian::new(config(1)).can_solve(&huge));
    assert!(Hungarian::new(config(1)).can_solve(&matrix(2, 2, vec![0, 0, 0, i64::MAX / 3])));
    assert!(!Hungarian::new(config(1)).can_solve(&matrix(2, 2, vec![0, 0, 0, i64::MAX / 3 + 1])));
    // A matrix that the solver refuses for its shape needs no small costs.
    assert!(Hungarian::new(config(3)).can_solve(&huge));
    assert!(Hungarian::new(config(usize::MAX)).can_solve(&small));
    assert!(Hungarian::new(config(0)).can_solve(&negative));
    assert!(Auction::new(i64::MIN, config(3)).can_solve(&huge));
    assert!(Hungarian::new(config(3)).solve(&huge).is_err());
    assert!(Greedy::new(config(1)).can_solve(&huge));
    assert!(Auction::new(1, config(1)).can_solve(&small));
    assert!(!Auction::new(1, config(1)).can_solve(&negative));
    assert!(Auction::new(i64::MAX / 12, config(1)).can_solve(&small));
    assert!(!Auction::new(i64::MAX / 12 + 1, config(1)).can_solve(&small));
    assert!(!Auction::new(i64::MIN, config(1)).can_solve(&small));
    assert_eq!(small.limit_for(1), i64::MAX / 3);
    assert_eq!(small.limit_for(4), i64::MAX / 12);
    assert!(small.costs_within(4));
    assert!(!small.costs_within(3));
}

#[test]
fn two_largest_values() {
    assert_eq!(find_two_max_values(&vec![]), None);
    assert_eq!(find_two_max_values(&vec![3]), None);
    assert_eq!(find_two_max_values(&vec![3, 5]), Some((5, 3)));
    assert_eq!(find_two_max_values(&vec![5, 3]), Some((5, 3)));
    assert_eq!(find_two_max_values(&vec![1, 9, 4, 7]), Some((9, 7)));
    assert_eq!(find_two_max_values(&vec![4, 4, 1]), Some((4, 4)));
    assert_eq!(find_two_max_values(&vec![-3, -8, -5]), Some((-3, -5)));
}

#[test]
fn best_and_second_best_of_the_tiles_left() {
    let m = matrix(1, 3, vec![5, 2, 4]);
    let prices = vec![0, 1, 0];
    assert_eq!(
        find_best_and_second_best(0, &m, &prices, &vec![0, 0, 0], 1),
        Some((1, -3, -4))
    );
    assert_eq!(
        find_best_and_second_best(0, &m, &prices, &vec![0, 1, 0], 1),
        Some((2, -4, -5))
    );
    assert_eq!(
        find_best_and_second_best(0, &m, &prices, &vec![1, 1, 0], 1),
        None
    );
    assert_eq!(first_eligible(&vec![1, 1, 0], 1), Some(2));
    assert_eq!(first_eligible(&vec![1, 1, 1], 1), None);
    assert_eq!(first_eligible(&vec![1, 1, 1], 2), Some(0));
}

#[test]
fn greedy_candidates() {
    let m = matrix(2, 3, vec![5, 2, 2, 7, 7, 7]);
    assert_eq!(best_available(&m, 0, &vec![0, 0, 0], 1), (2, 1));
    assert_eq!(best_available(&m, 0, &vec![0, 1, 0], 1), (2, 2));
    assert_eq!(best_available(&m, 0, &vec![0, 1, 1], 1), (5, 0));
    assert_eq!(best_available(&m, 1, &vec![1, 0, 0], 1), (7, 1));
}

#[test]
fn the_queue_hands_out_the_least_candidate() {
    let mut queue = CandidateQueue::new(4);
    assert_eq!(queue.pop(), None);
    queue.push(3, 0, 7);
    queue.push(1, 2, 5);
    queue.push(1, 1, 9);
    queue.push(2, 3, 0);
    // Equal costs come in the order of the cells.
    assert_eq!(queue.pop(), Some((1, 1, 9)));
    assert_eq!(queue.pop(), Some((1, 2, 5)));
    // A cell that was taken out may come back with another candidate.
    queue.push(0, 1, 4);
    assert_eq!(queue.pop(), Some((0, 1, 4)));
    assert_eq!(queue.pop(), Some((2, 3, 0)));
    assert_eq!(queue.pop(), Some((3, 0, 7)));
    assert_eq!(queue.pop(), None);
}

#[test]
fn tiling_repeats_every_row() {
    let m = matrix(2, 2, vec![1, 2, 3, 4]);
    let tiled = m.tile(3);
    assert_eq!(tiled.rows, 2);
    assert_eq!(tiled.columns, 6);
    assert_eq!(tiled.data, vec![1, 2, 1, 2, 1, 2, 3, 4, 3, 4, 3, 4]);
    assert_eq!(tiled.get(1, 5), m.get(1, 5 % 2));
    assert_eq!(m.tile(1).data, m.data);
}

#[test]
fn a_matrix_without_columns_is_refused() {
    let m = DistanceMatrix {
        rows: 2,
        columns: 0,
        data: vec![],
    };
    let expected = SolverError::TooFewColumns {
        rows: 2,
        columns: 0,
    };
    assert!(Hungarian::new(config(1)).can_solve(&m));
    match Hungarian::new(config(1)).solve(&m) {
        Err(PhomoError::SolverError(e)) => assert_eq!(e, expected),
        other => panic!("unexpected result {:?}", other),
    }
    match Greedy::new(config(2)).solve(&m) {
        Err(PhomoError::SolverError(e)) => assert_eq!(e, expected),
        other => panic!("unexpected result {:?}", other),
    }
    match Auction::new(1, config(1)).solve(&m) {
        Err(PhomoError::SolverError(e)) => assert_eq!(e, expected),
        other => panic!("unexpected result {:?}", other),
    }
}

#[test]
fn a_matrix_is_tested_for_its_shape() {
    assert!(matrix(2, 3, vec![0; 6]).is_well_formed());
    let short = DistanceMatrix {
        rows: 1,
        columns: 2,
        data: vec![1],
    };
    assert!(!short.is_well_formed());
    assert!(!Hungarian::new(config(1)).can_solve(&short));
    assert!(!Greedy::new(config(1)).can_solve(&short));
    assert!(!Auction::new(1, config(1)).can_solve(&short));
    // Refused for its shape before any entry is read.
    assert!(Greedy::new(config(3)).can_solve(&short));
    let empty = DistanceMatrix {
        rows: 0,
        columns: 2,
        data: vec![],
    };
    assert!(!empty.is_well_formed());
    assert!(!Greedy::new(config(1)).can_solve(&empty));
}
