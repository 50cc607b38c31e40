use std::cmp::Reverse;
use std::collections::BinaryHeap;

use phomo::lsap;
use phomo::Auction;
use phomo::DistanceMatrix;
use phomo::Greedy;
use phomo::Solve;
use phomo::SolverConfig;

// A pseudo-random matrix with costs below `span`; a small span gives many ties.
fn scrambled(rows: usize, columns: usize, seed: u64, span: u64) -> DistanceMatrix {
    let mut state = seed.wrapping_mul(0x9E3779B97F4A7C15) | 1;
    let mut data = Vec::with_capacity(rows * columns);
    for _ in 0..rows * columns {
        state ^= state << 13;
        state ^= state >> 7;
        state ^= state << 17;
        data.push((state % span) as i64);
    }
    DistanceMatrix::new(rows, columns, data).unwrap()
}

// Shortest augmenting paths, written out plainly: for every row a search
// over reduced costs, new dual values, and a flip along the path.
fn plain_lsap(m: &DistanceMatrix) -> Vec<usize> {
    let (nr, nc) = (m.rows, m.columns);
    let none = usize::MAX;
    let mut u = vec![0i64; nr];
    let mut v = vec![0i64; nc];
    let mut col_of = vec![none; nr];
    let mut row_of = vec![none; nc];
    for r in 0..nr {
        let mut remaining: Vec<usize> = (0..nc).collect();
        let mut left = nc;
        let mut path = vec![i64::MAX; nc];
        let mut pred = vec![none; nc];
        let mut in_rows = vec![false; nr];
        let mut in_cols = vec![false; nc];
        let mut row = r;
        let mut min_val = 0i64;
        let sink;
        loop {
            in_rows[row] = true;
            let mut lowest = i64::MAX;
            let mut index = none;
            for it in 0..left {
                let j = remaining[it];
                let reduced = min_val + m.get(row, j) - u[row] - v[j];
                if reduced < path[j] {
                    path[j] = reduced;
                    pred[j] = row;
                }
                if path[j] < lowest || (path[j] == lowest && row_of[j] == none) {
                    lowest = path[j];
                    index = it;
                }
            }
            min_val = lowest;
            let j = remaining[index];
            in_cols[j] = true;
            left -= 1;
            remaining.swap(index, left);
            if row_of[j] == none {
                sink = j;
                break;
            }
            row = row_of[j];
        }
        u[r] += min_val;
        for i in 0..nr {
            if in_rows[i] && i != r {
                u[i] += min_val - path[col_of[i]];
            }
        }
        for j in 0..nc {
            if in_cols[j] {
                v[j] -= min_val - path[j];
            }
        }
        let mut column = sink;
        loop {
            let row = pred[column];
            row_of[column] = row;
            std::mem::swap(&mut col_of[row], &mut column);
            if row == r {
                break;
            }
        }
    }
    col_of
}

// All pairs of a cell and a tile in the order of cost, cell and tile; each
// is taken if its cell is empty and its tile may still be used.
fn greedy_over_all_pairs(m: &DistanceMatrix, limit: usize) -> Vec<usize> {
    let mut pairs = Vec::new();
    for cell in 0..m.rows {
        for tile in 0..m.columns {
            pairs.push((m.get(cell, tile), cell, tile));
        }
    }
    pairs.sort();
    let mut uses = vec![0usize; m.columns];
    let mut assignment = vec![usize::MAX; m.rows];
    for (_, cell, tile) in pairs {
        if assignment[cell] == usize::MAX && uses[tile] < limit {
            assignment[cell] = tile;
            uses[tile] += 1;
        }
    }
    assignment
}

// A heap that holds the best known tile of every empty cell.
fn greedy_with_a_heap(m: &DistanceMatrix, limit: usize) -> Vec<usize> {
    let best = |cell: usize, uses: &[usize]| {
        (0..m.columns)
            .filter(|&tile| uses[tile] < limit)
            .map(|tile| (m.get(cell, tile), tile))
            .min()
            .unwrap()
    };
    let mut uses = vec![0usize; m.columns];
    let mut heap = BinaryHeap::new();
    for cell in 0..m.rows {
        let (cost, tile) = best(cell, &uses);
        heap.push(Reverse((cost, cell, tile)));
    }
    let mut assignment = vec![0; m.rows];
    while let Some(Reverse((_, cell, tile))) = heap.pop() {
        if uses[tile] < limit {
            assignment[cell] = tile;
            uses[tile] += 1;
        } else {
            let (cost, tile) = best(cell, &uses);
            heap.push(Reverse((cost, cell, tile)));
        }
    }
    assignment
}

// Every row bids once for the tile it values most.
fn plain_auction(m: &DistanceMatrix, epsilon: i64, limit: usize) -> Vec<usize> {
    let mut prices = vec![0i64; m.columns];
    let mut uses = vec![0usize; m.columns];
    let mut assignment = Vec::new();
    for agent in 0..m.rows {
        let offers: Vec<(usize, i64)> = (0..m.columns)
            .filter(|&task| uses[task] < limit)
            .map(|task| (task, -m.get(agent, task) - prices[task]))
            .collect();
        let best = if offers.len() >= 2 {
            let mut values: Vec<i64> = offers.iter().map(|o| o.1).collect();
            values.sort();
            let max1 = values[values.len() - 1];
            let max2 = values[values.len() - 2];
            let best = offers.iter().find(|o| o.1 == max1).unwrap().0;
            prices[best] += max1 - max2 + epsilon;
            best
        } else {
            offers[0].0
        };
        uses[best] += 1;
        assignment.push(best);
    }
    assignment
}

#[test]
fn lsap_breaks_ties_as_the_plain_search_does() {
    for seed in 0..200u64 {
        let rows = 1 + (seed % 7) as usize;
        let columns = rows + (seed / 7 % 4) as usize;
        let span = [1, 2, 3, 10, 1000][(seed % 5) as usize];
        let m = scrambled(rows, columns, seed, span);
        assert_eq!(lsap::solve(&m).unwrap(), plain_lsap(&m));
    }
}

#[test]
fn greedy_agrees_with_a_queue_of_all_pairs() {
    for seed in 0..200u64 {
        let rows = 1 + (seed % 6) as usize;
        let limit = 1 + (seed / 6 % 3) as usize;
        let columns = rows * limit + (seed % 3) as usize;
        let span = [1, 2, 5, 1000][(seed % 4) as usize];
        let m = scrambled(rows, columns, seed, span);
        let config = SolverConfig {
            max_tile_occurrences: limit,
        };
        let assignment = Greedy::new(config).solve(&m).unwrap();
        assert_eq!(assignment, greedy_over_all_pairs(&m, limit));
        assert_eq!(assignment, greedy_with_a_heap(&m, limit));
    }
}

#[test]
fn auction_agrees_with_plain_bidding() {
    for seed in 0..200u64 {
        let rows = 1 + (seed % 6) as usize;
        let limit = 1 + (seed / 6 % 3) as usize;
        let columns = rows * limit + (seed % 3) as usize;
        let span = [1, 2, 5, 1000][(seed % 4) as usize];
        let epsilon = [1, 0, 3, -2][(seed / 4 % 4) as usize];
        let m = scrambled(rows, columns, seed, span);
        let config = SolverConfig {
            max_tile_occurrences: limit,
        };
        let assignment = Auction::new(epsilon, config).solve(&m).unwrap();
        assert_eq!(assignment, plain_auction(&m, epsilon, limit));
    }
}
