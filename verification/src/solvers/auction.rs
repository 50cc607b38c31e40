//! The bidding solver.

use crate::assignment::in_range;
use crate::assignment::is_assignment;
use crate::assignment::occurrences;
use crate::distance_matrix::Costs;
use crate::distance_matrix::DistanceMatrix;
use crate::error::PhomoError;
use crate::distance_matrix::lemma_cell_index;
use crate::solvers::check_input;
use crate::solvers::error::AuctionError;
use crate::solvers::error::SolverError;
use crate::solvers::greedy::count_sum;
use crate::solvers::greedy::lemma_count_sum_none;
use crate::solvers::greedy::lemma_count_sum_update;
use crate::solvers::greedy::lemma_unused_tile;
use crate::solvers::refusal;
use crate::solvers::Solve;
use crate::solvers::SolverConfig;
use vstd::prelude::*;

verus! {

/// Lets the rows bid for the tiles, one row after the other.
///
/// A row values a tile at the negated sum of its cost and its price. It
/// takes the tile it values most among those that may still be used, the
/// lowest one where several are valued most, and raises that tile's price by
/// the margin over the runner-up plus `epsilon`. A row that finds a single
/// tile left has no runner-up to outbid and takes the tile at its price.
///
/// A row keeps the tile it took: no bid takes a tile away from an earlier
/// row. So every row bids once and the auction ends after one round,
/// whatever `epsilon` is.
#[derive(Debug)]
pub struct Auction {
    pub epsilon: i64,
    pub config: SolverConfig,
}

impl Default for Auction {
    fn default() -> (solver: Self)
        ensures
            solver.epsilon == 1,
            solver.config.max_tile_occurrences == 1,
    {
        Self { epsilon: 1, config: SolverConfig::default() }
    }
}

impl Auction {
    /// A solver that raises prices by `epsilon` and works with `config`.
    pub fn new(epsilon: i64, config: SolverConfig) -> (solver: Self)
        ensures
            solver.epsilon == epsilon,
            solver.config == config,
    {
        Self { epsilon, config }
    }
}

/// The largest value of `values` and the largest of the others.
pub open spec fn two_max(values: Seq<i64>) -> (i64, i64)
    decreases values.len(),
{
    if values.len() < 2 {
        (i64::MIN, i64::MIN)
    } else if values.len() == 2 {
        if values[0] > values[1] {
            (values[0], values[1])
        } else {
            (values[1], values[0])
        }
    } else {
        let (max1, max2) = two_max(values.drop_last());
        let value = values.last();
        if value > max1 {
            (value, max1)
        } else if value > max2 {
            (max1, value)
        } else {
            (max1, max2)
        }
    }
}

/// `max1` stands at `i`, `max2` at another place `j`, no value exceeds
/// `max1` and no value but the one at `i` exceeds `max2`.
pub open spec fn tops(values: Seq<i64>, max1: i64, max2: i64, i: int, j: int) -> bool {
    &&& 0 <= i < values.len()
    &&& 0 <= j < values.len()
    &&& i != j
    &&& values[i] == max1
    &&& values[j] == max2
    &&& max2 <= max1
    &&& forall|l: int| 0 <= l < values.len() && l != i ==> #[trigger] values[l] <= max2
}

/// The two largest of `values`, the largest first; `None` for fewer than
/// two values.
pub fn find_two_max_values(values: &Vec<i64>) -> (res: Option<(i64, i64)>)
    ensures
        values.len() < 2 ==> res is None,
        values.len() >= 2 ==> res == Some(two_max(values@)) && exists|i: int, j: int|
            tops(values@, two_max(values@).0, two_max(values@).1, i, j),
{
    if values.len() < 2 {
        return None;
    }
    let first = values[0];
    let second = values[1];
    let mut max1 = if first > second {
        first
    } else {
        second
    };
    let mut max2 = if first > second {
        second
    } else {
        first
    };
    let ghost mut at1: int = if first > second {
        0
    } else {
        1
    };
    let ghost mut at2: int = 1 - at1;
    let mut n: usize = 2;
    proof {
        assert(values@.take(2) =~= seq![first, second]);
    }
    while n < values.len()
        invariant
            2 <= n <= values.len(),
            (max1, max2) == two_max(values@.take(n as int)),
            tops(values@.take(n as int), max1, max2, at1, at2),
        decreases values.len() - n,
    {
        let ghost before = values@.take(n as int);
        let ghost after = values@.take(n + 1);
        let value = values[n];
        proof {
            assert(after.drop_last() =~= before);
            assert(after.last() == value);
            assert forall|l: int| 0 <= l < n implies after[l] == before[l] by {}
        }
        if value > max1 {
            max2 = max1;
            max1 = value;
            proof {
                at2 = at1;
                at1 = n as int;
            }
        } else if value > max2 {
            max2 = value;
            proof {
                at2 = n as int;
            }
        }
        proof {
            assert forall|l: int| 0 <= l < after.len() && l != at1 implies #[trigger] after[l]
                <= max2 by {
                if l < n {
                    assert(before[l] == after[l]);
                }
            }
        }
        n += 1;
    }
    proof {
        assert(values@.take(values.len() as int) =~= values@);
        assert(tops(values@, max1, max2, at1, at2));
        assert((max1, max2) == two_max(values@));
        assert(tops(values@, two_max(values@).0, two_max(values@).1, at1, at2));
    }
    Some((max1, max2))
}

/// What a row thinks of a tile: the negated sum of cost and price.
pub open spec fn value_of(m: Costs, prices: Seq<i64>, agent: int, task: int) -> int {
    -m.cost(agent, task) - prices[task]
}

/// The tiles among the first `n` that may still be used, in order.
pub open spec fn eligible(counts: Seq<usize>, limit: int, n: nat) -> Seq<usize>
    decreases n,
{
    if n == 0 {
        Seq::empty()
    } else {
        let front = eligible(counts, limit, (n - 1) as nat);
        if counts[n - 1] < limit {
            front.push((n - 1) as usize)
        } else {
            front
        }
    }
}

/// What `agent` thinks of each of `tasks`, in order.
pub open spec fn values_of(m: Costs, prices: Seq<i64>, agent: int, tasks: Seq<usize>) -> Seq<i64> {
    Seq::new(tasks.len(), |i: int| value_of(m, prices, agent, tasks[i] as int) as i64)
}

/// The first place at which `values` holds `wanted`.
pub open spec fn first_at(values: Seq<i64>, wanted: i64, n: nat) -> int
    decreases n,
{
    if n == 0 {
        -1
    } else {
        let before = first_at(values, wanted, (n - 1) as nat);
        if before >= 0 {
            before
        } else if values[n - 1] == wanted {
            n - 1
        } else {
            -1
        }
    }
}

/// The best tile for `agent`, its value and the value of the runner-up;
/// `None` where fewer than two tiles may still be used.
pub open spec fn best_and_second(
    m: Costs,
    prices: Seq<i64>,
    counts: Seq<usize>,
    limit: int,
    agent: int,
) -> Option<(usize, i64, i64)> {
    let tasks = eligible(counts, limit, counts.len());
    let values = values_of(m, prices, agent, tasks);
    if tasks.len() < 2 {
        None
    } else {
        let (max1, max2) = two_max(values);
        Some((tasks[first_at(values, max1, values.len())], max1, max2))
    }
}

/// The tiles that may still be used are tiles, in rising order, and none
/// that may still be used is missing.
pub proof fn lemma_eligible(counts: Seq<usize>, limit: int, n: nat)
    requires
        n <= counts.len() <= usize::MAX,
    ensures
        eligible(counts, limit, n).len() <= n,
        forall|i: int|
            0 <= i < eligible(counts, limit, n).len() ==> (#[trigger] eligible(counts, limit, n)[i])
                < n && counts[eligible(counts, limit, n)[i] as int] < limit,
        forall|t: int|
            0 <= t < n && counts[t] < limit ==> exists|i: int|
                0 <= i < eligible(counts, limit, n).len() && eligible(counts, limit, n)[i] == t,
    decreases n,
{
    if n > 0 {
        lemma_eligible(counts, limit, (n - 1) as nat);
        let front = eligible(counts, limit, (n - 1) as nat);
        let all = eligible(counts, limit, n);
        assert forall|t: int| 0 <= t < n && counts[t] < limit implies exists|i: int|
            0 <= i < all.len() && all[i] == t by {
            if t < n - 1 {
                let i = choose|i: int| 0 <= i < front.len() && front[i] == t;
                assert(all[i] == t);
            } else {
                assert(all[all.len() - 1] == t);
            }
        }
    }
}

/// Where `wanted` occurs among the first `n` values, `first_at` finds it.
pub proof fn lemma_first_at(values: Seq<i64>, wanted: i64, n: nat, witness: int)
    requires
        n <= values.len(),
        0 <= witness < n,
        values[witness] == wanted,
    ensures
        0 <= first_at(values, wanted, n) <= witness,
        values[first_at(values, wanted, n)] == wanted,
    decreases n,
{
    if witness < n - 1 {
        lemma_first_at(values, wanted, (n - 1) as nat, witness);
    } else {
        lemma_first_at_range(values, wanted, (n - 1) as nat);
    }
}

/// `first_at` answers with a place that holds `wanted`, or with -1.
pub proof fn lemma_first_at_range(values: Seq<i64>, wanted: i64, n: nat)
    requires
        n <= values.len(),
    ensures
        first_at(values, wanted, n) == -1 || (0 <= first_at(values, wanted, n) < n
            && values[first_at(values, wanted, n)] == wanted),
    decreases n,
{
    if n > 0 {
        lemma_first_at_range(values, wanted, (n - 1) as nat);
    }
}

/// The sums that a row forms when it values the tiles fit a machine word.
pub open spec fn values_fit(m: Costs, prices: Seq<i64>, agent: int) -> bool {
    forall|t: int|
        0 <= t < m.columns ==> -i64::MAX <= #[trigger] m.cost(agent, t) <= i64::MAX && i64::MIN
            <= value_of(m, prices, agent, t) <= i64::MAX
}

/// Finds the best tile for `agent` among those that may still be used, its
/// value and the value of the runner-up; `None` where fewer than two tiles
/// may still be used.
pub fn find_best_and_second_best(
    agent: usize,
    distance_matrix: &DistanceMatrix,
    prices: &Vec<i64>,
    task_assigned: &Vec<usize>,
    max_tile_occurrences: usize,
) -> (res: Option<(usize, i64, i64)>)
    requires
        distance_matrix.wf(),
        agent < distance_matrix.rows,
        prices.len() == distance_matrix.columns,
        task_assigned.len() == distance_matrix.columns,
        values_fit(distance_matrix@, prices@, agent as int),
    ensures
        res == best_and_second(
            distance_matrix@,
            prices@,
            task_assigned@,
            max_tile_occurrences as int,
            agent as int,
        ),
        res matches Some((best, max1, max2)) ==> {
            &&& best < distance_matrix.columns
            &&& task_assigned[best as int] < max_tile_occurrences
            &&& max1 == value_of(distance_matrix@, prices@, agent as int, best as int)
            &&& max2 <= max1
            &&& exists|other: int|
                0 <= other < distance_matrix.columns && other != best && task_assigned[other]
                    < max_tile_occurrences && max2 == value_of(
                    distance_matrix@,
                    prices@,
                    agent as int,
                    other,
                )
        },
{
    let n_tasks = task_assigned.len();
    let ghost m = distance_matrix@;
    let ghost limit = max_tile_occurrences as int;
    let mut tasks: Vec<usize> = Vec::new();
    let mut values: Vec<i64> = Vec::new();
    let mut task: usize = 0;
    proof {
        assert(distance_matrix.data.len() == m.data.len());
    }
    while task < n_tasks
        invariant
            distance_matrix.wf(),
            m == distance_matrix@,
            distance_matrix.data.len() == m.data.len(),
            agent < m.rows,
            n_tasks == m.columns,
            prices.len() == n_tasks,
            task_assigned.len() == n_tasks,
            values_fit(m, prices@, agent as int),
            task <= n_tasks,
            limit == max_tile_occurrences,
            tasks@ == eligible(task_assigned@, limit, task as nat),
            values@ == values_of(m, prices@, agent as int, tasks@),
        decreases n_tasks - task,
    {
        if task_assigned[task] < max_tile_occurrences {
            proof {
                lemma_cell_index(m.rows as int, m.columns as int, agent as int, task as int);
                assert(-i64::MAX <= m.cost(agent as int, task as int));
            }
            let value = -distance_matrix.get(agent, task) - prices[task];
            let ghost old_tasks = tasks@;
            tasks.push(task);
            values.push(value);
            proof {
                assert(values@ =~= values_of(m, prices@, agent as int, tasks@)) by {
                    assert forall|i: int| 0 <= i < tasks@.len() implies values@[i] == values_of(
                        m,
                        prices@,
                        agent as int,
                        tasks@,
                    )[i] by {
                        if i < old_tasks.len() {
                            assert(tasks@[i] == old_tasks[i]);
                        }
                    }
                }
            }
        }
        proof {
            let next = eligible(task_assigned@, limit, (task + 1) as nat);
            let front = eligible(task_assigned@, limit, task as nat);
            assert(next == if task_assigned@[task as int] < limit {
                front.push(task)
            } else {
                front
            });
        }
        task += 1;
    }
    proof {
        lemma_eligible(task_assigned@, limit, n_tasks as nat);
    }
    if values.len() < 2 {
        return None;
    }
    let (max1, max2) = match find_two_max_values(&values) {
        Some(pair) => pair,
        None => {
            return None;
        },
    };
    let ghost (at1, at2) = choose|i: int, j: int| tops(values@, max1, max2, i, j);
    proof {
        lemma_first_at(values@, max1, values@.len(), at1);
    }
    let mut i: usize = 0;
    while i < values.len() && values[i] != max1
        invariant
            i <= values.len(),
            first_at(values@, max1, i as nat) == -1,
            0 <= at1 < values.len(),
            values@[at1] == max1,
            i <= at1,
        decreases values.len() - i,
    {
        i += 1;
        proof {
            if i > at1 {
                assert(false);
            }
        }
    }
    proof {
        assert(first_at(values@, max1, (i + 1) as nat) == i);
        lemma_first_at_stays(values@, max1, (i + 1) as nat, values@.len());
        let other_at = if at1 == i {
            at2
        } else {
            at1
        };
        assert(values@[other_at] <= max2 || other_at == at1);
        if at1 != i {
            // The value at `at1` is the largest too, so the runner-up equals it.
            assert(values@[at1] <= max2);
        }
        let other = tasks@[other_at] as int;
        assert(tasks@[i as int] != tasks@[other_at]) by {
            lemma_eligible_rising(task_assigned@, limit, n_tasks as nat, i as int, other_at);
        }
        assert(values@[i as int] == value_of(m, prices@, agent as int, tasks@[i as int] as int));
        assert(values@[other_at] == value_of(m, prices@, agent as int, other));
        assert(0 <= other < m.columns && task_assigned[other] < max_tile_occurrences);
    }
    Some((tasks[i], max1, max2))
}

/// Once `wanted` is found, looking further changes nothing.
pub proof fn lemma_first_at_stays(values: Seq<i64>, wanted: i64, n1: nat, n2: nat)
    requires
        n1 <= n2 <= values.len(),
        first_at(values, wanted, n1) >= 0,
    ensures
        first_at(values, wanted, n2) == first_at(values, wanted, n1),
    decreases n2 - n1,
{
    if n1 < n2 {
        lemma_first_at_stays(values, wanted, n1, (n2 - 1) as nat);
    }
}

/// Different places of the eligible tiles hold different tiles.
pub proof fn lemma_eligible_rising(counts: Seq<usize>, limit: int, n: nat, i: int, j: int)
    requires
        n <= counts.len() <= usize::MAX,
        0 <= i < eligible(counts, limit, n).len(),
        0 <= j < eligible(counts, limit, n).len(),
        i != j,
    ensures
        eligible(counts, limit, n)[i] != eligible(counts, limit, n)[j],
    decreases n,
{
    if n > 0 {
        let front = eligible(counts, limit, (n - 1) as nat);
        lemma_eligible(counts, limit, (n - 1) as nat);
        if i < front.len() && j < front.len() {
            lemma_eligible_rising(counts, limit, (n - 1) as nat, i, j);
        } else if i < front.len() {
            assert(front[i] < n - 1);
        } else if j < front.len() {
            assert(front[j] < n - 1);
        }
    }
}

/// The lowest tile that may still be used, if there is one.
pub open spec fn lowest_eligible(counts: Seq<usize>, limit: int) -> Option<usize> {
    let tasks = eligible(counts, limit, counts.len());
    if tasks.len() == 0 {
        None
    } else {
        Some(tasks[0])
    }
}

/// Finds the lowest tile that may still be used.
pub fn first_eligible(task_assigned: &Vec<usize>, max_tile_occurrences: usize) -> (res: Option<
    usize,
>)
    ensures
        res == lowest_eligible(task_assigned@, max_tile_occurrences as int),
        res matches Some(task) ==> task < task_assigned.len() && task_assigned[task as int]
            < max_tile_occurrences,
        res is None ==> forall|t: int|
            0 <= t < task_assigned.len() ==> task_assigned[t] >= max_tile_occurrences,
{
    let ghost limit = max_tile_occurrences as int;
    let mut task: usize = 0;
    while task < task_assigned.len()
        invariant
            task <= task_assigned.len(),
            limit == max_tile_occurrences,
            eligible(task_assigned@, limit, task as nat).len() == 0,
            forall|t: int| 0 <= t < task ==> task_assigned[t] >= max_tile_occurrences,
        decreases task_assigned.len() - task,
    {
        if task_assigned[task] < max_tile_occurrences {
            proof {
                lemma_eligible_front(
                    task_assigned@,
                    limit,
                    (task + 1) as nat,
                    task_assigned@.len(),
                );
            }
            return Some(task);
        }
        task += 1;
    }
    None
}

/// Looking at more tiles leaves those found so far at the front.
pub proof fn lemma_eligible_front(counts: Seq<usize>, limit: int, n1: nat, n2: nat)
    requires
        n1 <= n2 <= counts.len(),
    ensures
        eligible(counts, limit, n1).len() <= eligible(counts, limit, n2).len(),
        forall|i: int|
            0 <= i < eligible(counts, limit, n1).len() ==> eligible(counts, limit, n2)[i]
                == eligible(counts, limit, n1)[i],
    decreases n2 - n1,
{
    if n1 < n2 {
        lemma_eligible_front(counts, limit, n1, (n2 - 1) as nat);
    }
}

/// How far the auction has come: the prices, how often each tile is taken,
/// and the tiles of the rows that have bid.
pub struct AuctionState {
    pub prices: Seq<i64>,
    pub counts: Seq<usize>,
    pub assignment: Seq<usize>,
}

/// The state after `agent` has taken `task` and raised its price by `raise`.
pub open spec fn award(s: AuctionState, task: usize, raise: int) -> AuctionState {
    AuctionState {
        prices: s.prices.update(task as int, (s.prices[task as int] + raise) as i64),
        counts: s.counts.update(task as int, (s.counts[task as int] + 1) as usize),
        assignment: s.assignment.push(task),
    }
}

/// The state after `agent` has bid; `None` where no tile may be used any more.
pub open spec fn bid(m: Costs, epsilon: i64, limit: int, s: AuctionState, agent: int) -> Option<
    AuctionState,
> {
    match best_and_second(m, s.prices, s.counts, limit, agent) {
        Some((best, max1, max2)) => Some(award(s, best, max1 - max2 + epsilon)),
        None => match lowest_eligible(s.counts, limit) {
            Some(task) => Some(award(s, task, 0)),
            None => None,
        },
    }
}

/// The state after the rows from `agent` on have bid in turn.
pub open spec fn auction_model(
    m: Costs,
    epsilon: i64,
    limit: int,
    s: AuctionState,
    agent: nat,
) -> Option<AuctionState>
    decreases m.rows - agent,
{
    if agent >= m.rows {
        Some(s)
    } else {
        match bid(m, epsilon, limit, s, agent as int) {
            None => None,
            Some(t) => auction_model(m, epsilon, limit, t, agent + 1),
        }
    }
}

/// The state before any row has bid: all prices zero, no tile taken.
pub open spec fn auction_start(m: Costs) -> AuctionState {
    AuctionState {
        prices: Seq::new(m.columns as nat, |j: int| 0i64),
        counts: Seq::new(m.columns as nat, |j: int| 0usize),
        assignment: Seq::empty(),
    }
}

/// The assignment that the auction reaches.
pub open spec fn auction_assignment(m: Costs, epsilon: i64, limit: int) -> Seq<usize> {
    match auction_model(m, epsilon, limit, auction_start(m), 0) {
        Some(s) => s.assignment,
        None => Seq::empty(),
    }
}

/// The largest cost and the largest `epsilon` with which the auction's sums
/// still fit a machine word: `i64::MAX / (4 * (rows + 1))`.
pub open spec fn bid_limit(m: Costs) -> int {
    i64::MAX as int / (4 * (m.rows as int + 1))
}

/// With prices within `agent` times twice the bid limit, the bid of the
/// next row fits a machine word.
pub proof fn lemma_bid_limit(m: Costs, agent: int)
    requires
        0 <= agent < m.rows,
    ensures
        0 <= bid_limit(m),
        0 <= agent * (2 * bid_limit(m)),
        3 * bid_limit(m) + 2 * (agent * (2 * bid_limit(m))) <= i64::MAX,
        (agent + 1) * (2 * bid_limit(m)) == agent * (2 * bid_limit(m)) + 2 * bid_limit(m),
{
    let limit = bid_limit(m);
    let n = 4 * (m.rows as int + 1);
    assert(limit * n <= i64::MAX && limit >= 0) by (nonlinear_arith)
        requires
            limit == i64::MAX as int / n,
            n >= 1,
    ;
    assert(3 * limit + 2 * (agent * (2 * limit)) <= limit * n) by (nonlinear_arith)
        requires
            4 * agent + 3 <= n,
            limit >= 0,
    ;
    assert((agent + 1) * (2 * limit) == agent * (2 * limit) + 2 * limit) by (nonlinear_arith);
    assert(0 <= agent * (2 * limit)) by (nonlinear_arith)
        requires
            0 <= agent,
            0 <= limit,
    ;
}

/// One more row with tile `task` is one more occurrence of that tile and of
/// no other.
pub proof fn lemma_occurrences_push(a: Seq<usize>, columns: int, task: usize, tile: int)
    requires
        0 <= task < columns,
    ensures
        occurrences(a.push(task), columns, tile) == occurrences(a, columns, tile) + (if tile
            == task {
            1nat
        } else {
            0nat
        }),
{
    assert(a.push(task).drop_last() =~= a);
    assert(a.push(task).last() == task);
    vstd::arithmetic::div_mod::lemma_small_mod(task as nat, columns as nat);
}

/// What the auction keeps true from one row to the next.
pub open spec fn auction_inv(m: Costs, limit: int, s: AuctionState, agent: int, bound: int) -> bool {
    &&& s.prices.len() == m.columns
    &&& s.counts.len() == m.columns
    &&& s.assignment.len() == agent
    &&& count_sum(s.counts) == agent
    &&& in_range(s.assignment, m.columns as int)
    &&& forall|t: int| 0 <= t < m.columns ==> -bound <= #[trigger] s.prices[t] <= bound
    &&& forall|t: int|
        0 <= t < m.columns ==> (#[trigger] s.counts[t]) <= limit && s.counts[t] == occurrences(
            s.assignment,
            m.columns as int,
            t,
        )
}

/// A row that takes a tile that may still be used, at a price within the
/// next bound, keeps the auction in order.
pub proof fn lemma_award(
    m: Costs,
    limit: int,
    s: AuctionState,
    agent: int,
    bound: int,
    task: usize,
    raise: int,
    step: int,
)
    requires
        auction_inv(m, limit, s, agent, bound),
        0 <= task < m.columns,
        s.counts[task as int] < limit <= usize::MAX,
        0 <= step,
        -(bound + step) <= s.prices[task as int] + raise <= bound + step,
        bound + step <= i64::MAX,
    ensures
        auction_inv(m, limit, award(s, task, raise), agent + 1, bound + step),
{
    let after = award(s, task, raise);
    lemma_count_sum_update(s.counts, task as int);
    assert forall|t: int| 0 <= t < m.columns implies (#[trigger] after.counts[t]) <= limit
        && after.counts[t] == occurrences(after.assignment, m.columns as int, t) by {
        lemma_occurrences_push(s.assignment, m.columns as int, task, t);
        assert(s.counts[t] <= limit);
    }
    assert forall|t: int| 0 <= t < m.columns implies -(bound + step) <= #[trigger] after.prices[t]
        <= bound + step by {
        assert(-bound <= s.prices[t] <= bound);
    }
    assert forall|i: int| 0 <= i < after.assignment.len() implies 0
        <= #[trigger] after.assignment[i] < m.columns by {
        if i < s.assignment.len() {
            assert(after.assignment[i] == s.assignment[i]);
        }
    }
}

impl Solve for Auction {
    open spec fn config(&self) -> SolverConfig {
        self.config
    }

    /// Every cost is non-negative and, like `epsilon` in either direction,
    /// at most [`bid_limit`].
    open spec fn accepts(&self, m: Costs) -> bool {
        &&& -bid_limit(m) <= self.epsilon <= bid_limit(m)
        &&& forall|i: int| 0 <= i < m.data.len() ==> 0 <= #[trigger] m.data[i] <= bid_limit(m)
    }

    open spec fn assignment(&self, m: Costs) -> Seq<usize> {
        auction_assignment(m, self.epsilon, self.config.max_tile_occurrences as int)
    }

    fn can_solve(&self, distance_matrix: &DistanceMatrix) -> (ok: bool) {
        if check_input(&self.config, distance_matrix).is_err() {
            return true;
        }
        if !distance_matrix.is_well_formed() {
            return false;
        }
        let limit = distance_matrix.limit_for(4);
        proof {
            assert(distance_matrix.data.len() == distance_matrix@.data.len());
        }
        -limit <= self.epsilon && self.epsilon <= limit && distance_matrix.costs_within(limit)
    }

    /// Beyond what every solver owes, every row is given a tile itself, not
    /// one of its repeats: every entry lies below the number of columns.
    fn solve(&mut self, distance_matrix: &DistanceMatrix) -> (res: Result<Vec<usize>, PhomoError>)
        ensures
            res matches Ok(assignment) ==> in_range(assignment@, distance_matrix@.columns as int),
    {
        match check_input(&self.config, distance_matrix) {
            Err(e) => {
                return Err(PhomoError::SolverError(e));
            },
            Ok(_) => {},
        }
        let num_agents = distance_matrix.rows;
        let num_tasks = distance_matrix.columns;
        let max_tile_occurrences = self.config.max_tile_occurrences;
        let epsilon = self.epsilon;
        let ghost m = distance_matrix@;
        let ghost limit = max_tile_occurrences as int;
        let ghost cap = bid_limit(m);
        proof {
            assert(m.rows <= m.rows * limit) by (nonlinear_arith)
                requires
                    limit >= 1,
                    m.rows >= 0,
            ;
            assert(m.columns <= m.columns * limit) by (nonlinear_arith)
                requires
                    limit >= 1,
                    m.columns >= 0,
            ;
        }
        let mut prices: Vec<i64> = vec![0i64; num_tasks];
        let mut task_assigned: Vec<usize> = vec![0usize; num_tasks];
        let mut assignment: Vec<usize> = Vec::new();
        let ghost start = AuctionState {
            prices: prices@,
            counts: task_assigned@,
            assignment: assignment@,
        };
        let ghost target = auction_model(m, epsilon, limit, start, 0);
        let ghost mut bound: int = 0;
        proof {
            let goal = auction_start(m);
            assert(start.prices =~= goal.prices);
            assert(start.counts =~= goal.counts);
            assert(start.assignment =~= goal.assignment);
            lemma_count_sum_none(start.counts);
            assert forall|t: int| 0 <= t < m.columns implies (#[trigger] start.counts[t]) <= limit
                && start.counts[t] == occurrences(start.assignment, m.columns as int, t) by {}
        }
        let mut agent: usize = 0;
        while agent < num_agents
            invariant
                distance_matrix.wf(),
                m == distance_matrix@,
                num_agents == m.rows,
                num_tasks == m.columns,
                limit == max_tile_occurrences,
                limit >= 1,
                cap == bid_limit(m),
                epsilon == self.epsilon,
                self.accepts(m),
                m.columns >= m.rows * limit,
                m.rows <= m.rows * limit,
                agent <= num_agents,
                bound == agent * (2 * cap),
                prices.len() == num_tasks,
                task_assigned.len() == num_tasks,
                auction_inv(
                    m,
                    limit,
                    AuctionState {
                        prices: prices@,
                        counts: task_assigned@,
                        assignment: assignment@,
                    },
                    agent as int,
                    bound,
                ),
                target == auction_model(
                    m,
                    epsilon,
                    limit,
                    AuctionState {
                        prices: prices@,
                        counts: task_assigned@,
                        assignment: assignment@,
                    },
                    agent as nat,
                ),
            decreases num_agents - agent,
        {
            let ghost s = AuctionState {
                prices: prices@,
                counts: task_assigned@,
                assignment: assignment@,
            };
            proof {
                lemma_bid_limit(m, agent as int);
                assert forall|t: int| 0 <= t < m.columns implies 0 <= #[trigger] m.cost(
                    agent as int,
                    t,
                ) <= cap by {
                    lemma_cell_index(m.rows as int, m.columns as int, agent as int, t);
                }
                assert(values_fit(m, prices@, agent as int)) by {
                    assert forall|t: int| 0 <= t < m.columns implies -i64::MAX
                        <= #[trigger] m.cost(agent as int, t) <= i64::MAX && i64::MIN <= value_of(
                        m,
                        prices@,
                        agent as int,
                        t,
                    ) <= i64::MAX by {
                        assert(-bound <= s.prices[t] <= bound);
                    }
                }
            }
            match find_best_and_second_best(
                agent,
                distance_matrix,
                &prices,
                &task_assigned,
                max_tile_occurrences,
            ) {
                Some((best_task, best_value, second_best_value)) => {
                    proof {
                        let other = choose|other: int|
                            0 <= other < m.columns && other != best_task && task_assigned[other]
                                < max_tile_occurrences && second_best_value == value_of(
                                m,
                                prices@,
                                agent as int,
                                other,
                            );
                        assert(-bound <= s.prices[other] <= bound);
                        assert(-bound <= s.prices[best_task as int] <= bound);
                        assert(0 <= m.cost(agent as int, other) <= cap);
                        assert(0 <= m.cost(agent as int, best_task as int) <= cap);
                        lemma_award(
                            m,
                            limit,
                            s,
                            agent as int,
                            bound,
                            best_task,
                            best_value - second_best_value + epsilon,
                            2 * cap,
                        );
                    }
                    let bid = best_value - second_best_value + epsilon;
                    prices[best_task] = prices[best_task] + bid;
                    assignment.push(best_task);
                    task_assigned[best_task] = task_assigned[best_task] + 1;
                },
                None => {
                    match first_eligible(&task_assigned, max_tile_occurrences) {
                        Some(task) => {
                            proof {
                                assert(-bound <= s.prices[task as int] <= bound);
                                lemma_award(m, limit, s, agent as int, bound, task, 0, 2 * cap);
                                assert(s.prices.update(task as int, s.prices[task as int])
                                    =~= s.prices);
                            }
                            assignment.push(task);
                            task_assigned[task] = task_assigned[task] + 1;
                        },
                        None => {
                            proof {
                                let unused = lemma_unused_tile(s.counts);
                                assert(task_assigned[unused] < max_tile_occurrences);
                            }
                            return Err(
                                PhomoError::SolverError(
                                    SolverError::AuctionError(AuctionError::UnassignedAgents),
                                ),
                            );
                        },
                    }
                },
            }
            proof {
                bound = bound + 2 * cap;
            }
            agent += 1;
        }
        proof {
            let s = AuctionState {
                prices: prices@,
                counts: task_assigned@,
                assignment: assignment@,
            };
            assert forall|tile: int| 0 <= tile < m.columns implies #[trigger] occurrences(
                assignment@,
                m.columns as int,
                tile,
            ) <= limit by {
                assert(s.counts[tile] <= limit);
            }
            assert(is_assignment(m, limit, assignment@));
            assert(refusal(self.config, m) is None);
        }
        Ok(assignment)
    }
}

} // verus!
