//! What it means for an assignment of tiles to cells to be valid, what it
//! costs, and the facts about sums that the solvers' guarantees rest on.

use crate::distance_matrix::Costs;
use vstd::arithmetic::div_mod::lemma_fundamental_div_mod;
use vstd::arithmetic::div_mod::lemma_fundamental_div_mod_converse;
use vstd::arithmetic::div_mod::lemma_small_mod;
use vstd::prelude::*;

verus! {

/// Every entry names one of `columns` columns.
pub open spec fn in_range(a: Seq<usize>, columns: int) -> bool {
    forall|i: int| 0 <= i < a.len() ==> 0 <= #[trigger] a[i] < columns
}

/// No column is named twice.
pub open spec fn injective(a: Seq<usize>) -> bool {
    forall|i: int, j: int| 0 <= i < a.len() && 0 <= j < a.len() && i != j ==> a[i] != a[j]
}

/// `a` gives every row of `m` a column of its own.
pub open spec fn is_matching(m: Costs, a: Seq<usize>) -> bool {
    &&& a.len() == m.rows
    &&& in_range(a, m.columns as int)
    &&& injective(a)
}

/// The cost of `a` on `m`: each row `i` pays for the tile `a[i] % columns`.
pub open spec fn total_cost(m: Costs, a: Seq<usize>) -> int
    decreases a.len(),
{
    if a.len() == 0 {
        0
    } else {
        total_cost(m, a.drop_last()) + m.cost(a.len() - 1, a.last() as int % (m.columns as int))
    }
}

/// The number of rows that `a` gives tile `tile`, counting column `c` as
/// tile `c % columns`.
pub open spec fn occurrences(a: Seq<usize>, columns: int, tile: int) -> nat
    decreases a.len(),
{
    if a.len() == 0 {
        0
    } else {
        occurrences(a.drop_last(), columns, tile) + (if a.last() as int % columns == tile {
            1nat
        } else {
            0nat
        })
    }
}

/// No tile is used more than `limit` times.
pub open spec fn within_limit(a: Seq<usize>, columns: int, limit: int) -> bool {
    forall|tile: int| 0 <= tile < columns ==> #[trigger] occurrences(a, columns, tile) <= limit
}

/// `a` is an assignment for `m` in which every row has a tile and no tile
/// is used more than `limit` times. Entries may name any of the `limit`
/// copies of a tile: `c`, `c + columns`, and so on.
pub open spec fn is_assignment(m: Costs, limit: int, a: Seq<usize>) -> bool {
    &&& a.len() == m.rows
    &&& in_range(a, m.columns * limit)
    &&& within_limit(a, m.columns as int, limit)
}

/// The sum of the entries of `s`.
pub open spec fn seq_sum(s: Seq<i64>) -> int
    decreases s.len(),
{
    if s.len() == 0 {
        0
    } else {
        seq_sum(s.drop_last()) + s.last()
    }
}

/// The sum of the entries of `w` that `a` names, one summand per row.
pub open spec fn picked(w: Seq<i64>, a: Seq<usize>) -> int
    decreases a.len(),
{
    if a.len() == 0 {
        0
    } else {
        picked(w, a.drop_last()) + w[a.last() as int]
    }
}

/// `w` with every entry that `a` does not name set to zero.
pub open spec fn masked(w: Seq<i64>, a: Seq<usize>) -> Seq<i64> {
    Seq::new(
        w.len(),
        |j: int|
            if exists|i: int| 0 <= i < a.len() && a[i] == j {
                w[j]
            } else {
                0i64
            },
    )
}

/// Changing one entry changes the sum by the difference.
pub proof fn lemma_seq_sum_update(s: Seq<i64>, j: int, x: i64)
    requires
        0 <= j < s.len(),
    ensures
        seq_sum(s.update(j, x)) == seq_sum(s) - s[j] + x,
    decreases s.len(),
{
    let t = s.update(j, x);
    if j == s.len() - 1 {
        assert(t.drop_last() =~= s.drop_last());
    } else {
        assert(t.drop_last() =~= s.drop_last().update(j, x));
        lemma_seq_sum_update(s.drop_last(), j, x);
    }
}

/// Where every entry of `s` is at least the entry of `t`, so is the sum.
pub proof fn lemma_seq_sum_le(s: Seq<i64>, t: Seq<i64>)
    requires
        s.len() == t.len(),
        forall|j: int| 0 <= j < s.len() ==> s[j] >= t[j],
    ensures
        seq_sum(s) >= seq_sum(t),
    decreases s.len(),
{
    if s.len() > 0 {
        lemma_seq_sum_le(s.drop_last(), t.drop_last());
    }
}

/// Summing what an injective `a` names is summing the masked sequence.
pub proof fn lemma_picked_is_masked_sum(w: Seq<i64>, a: Seq<usize>)
    requires
        in_range(a, w.len() as int),
        injective(a),
    ensures
        picked(w, a) == seq_sum(masked(w, a)),
    decreases a.len(),
{
    if a.len() == 0 {
        let zero = masked(w, a);
        lemma_seq_sum_zero(zero);
    } else {
        let front = a.drop_last();
        let x = a.last() as int;
        assert(a[a.len() - 1] == x);
        assert(in_range(front, w.len() as int)) by {
            assert forall|i: int| 0 <= i < front.len() implies 0 <= #[trigger] front[i]
                < w.len() by {
                assert(front[i] == a[i]);
            }
        }
        assert(injective(front)) by {
            assert forall|i: int, j: int|
                0 <= i < front.len() && 0 <= j < front.len() && i != j implies front[i]
                != front[j] by {
                assert(front[i] == a[i] && front[j] == a[j]);
            }
        }
        lemma_picked_is_masked_sum(w, front);
        let before = masked(w, front);
        let after = masked(w, a);
        assert(before[x] == 0) by {
            if exists|i: int| 0 <= i < front.len() && front[i] == x {
                let i = choose|i: int| 0 <= i < front.len() && front[i] == x;
                assert(a[i] == front[i]);
            }
        }
        assert(after =~= before.update(x, w[x])) by {
            assert forall|j: int| 0 <= j < w.len() implies after[j] == before.update(x, w[x])[j] by {
                if j == x {
                    assert(a[a.len() - 1] == j);
                } else {
                    if exists|i: int| 0 <= i < a.len() && a[i] == j {
                        let i = choose|i: int| 0 <= i < a.len() && a[i] == j;
                        assert(i < front.len());
                        assert(front[i] == j);
                    }
                    if exists|i: int| 0 <= i < front.len() && front[i] == j {
                        let i = choose|i: int| 0 <= i < front.len() && front[i] == j;
                        assert(a[i] == j);
                    }
                }
            }
        }
        lemma_seq_sum_update(before, x, w[x]);
    }
}

/// A sequence of zeros sums to zero.
pub proof fn lemma_seq_sum_zero(s: Seq<i64>)
    requires
        forall|j: int| 0 <= j < s.len() ==> s[j] == 0,
    ensures
        seq_sum(s) == 0,
    decreases s.len(),
{
    if s.len() > 0 {
        lemma_seq_sum_zero(s.drop_last());
    }
}

/// No assignment within the limit costs less than `a`.
pub open spec fn cheapest(m: Costs, limit: int, a: Seq<usize>) -> bool {
    forall|b: Seq<usize>| is_assignment(m, limit, b) ==> total_cost(m, a) <= #[trigger] total_cost(m, b)
}

/// Column `c` of a tiled matrix costs what column `c % columns` costs.
pub proof fn lemma_tile_cost(m: Costs, n: usize, r: int, c: int)
    requires
        m.wf(),
        m.columns * n <= usize::MAX,
        0 <= r < m.rows,
        0 <= c < m.columns * n,
    ensures
        m.tile(n).cost(r, c) == m.cost(r, c % (m.columns as int)),
{
    let wide = m.columns * n;
    let i = r * wide + c;
    lemma_fundamental_div_mod_converse(i, wide, r, c);
    assert(0 <= i < m.rows * wide) by (nonlinear_arith)
        requires
            i == r * wide + c,
            0 <= r < m.rows,
            0 <= c < wide,
    ;
    assert(m.tile(n).columns == wide);
    assert(r * (m.tile(n).columns as int) + c == i);
}

/// The number of rows whose column is below `hi` and stands for `tile`.
pub open spec fn occurrences_below(a: Seq<usize>, columns: int, tile: int, hi: int) -> nat
    decreases a.len(),
{
    if a.len() == 0 {
        0
    } else {
        occurrences_below(a.drop_last(), columns, tile, hi) + (if a.last() as int % columns == tile
            && a.last() < hi {
            1nat
        } else {
            0nat
        })
    }
}

/// The number of rows whose column is `x`.
pub open spec fn count_of(a: Seq<usize>, x: int) -> nat
    decreases a.len(),
{
    if a.len() == 0 {
        0
    } else {
        count_of(a.drop_last(), x) + (if a.last() == x {
            1nat
        } else {
            0nat
        })
    }
}

/// A column that no row names is counted zero times.
pub proof fn lemma_count_of_absent(a: Seq<usize>, x: int)
    requires
        forall|i: int| 0 <= i < a.len() ==> a[i] != x,
    ensures
        count_of(a, x) == 0,
    decreases a.len(),
{
    if a.len() > 0 {
        assert(a[a.len() - 1] != x);
        assert forall|i: int| 0 <= i < a.drop_last().len() implies a.drop_last()[i] != x by {
            assert(a.drop_last()[i] == a[i]);
        }
        lemma_count_of_absent(a.drop_last(), x);
    }
}

/// The front of an injective sequence is injective.
pub proof fn lemma_injective_front(a: Seq<usize>)
    requires
        injective(a),
        a.len() > 0,
    ensures
        injective(a.drop_last()),
{
    let front = a.drop_last();
    assert forall|i: int, j: int|
        0 <= i < front.len() && 0 <= j < front.len() && i != j implies front[i] != front[j] by {
        assert(front[i] == a[i] && front[j] == a[j]);
    }
}

/// In an injective sequence every column is counted at most once.
pub proof fn lemma_count_of_injective(a: Seq<usize>, x: int)
    requires
        injective(a),
    ensures
        count_of(a, x) <= 1,
    decreases a.len(),
{
    if a.len() > 0 {
        let front = a.drop_last();
        lemma_injective_front(a);
        if a.last() == x {
            assert forall|i: int| 0 <= i < front.len() implies front[i] != x by {
                assert(front[i] == a[i]);
                assert(a[a.len() - 1] == x);
            }
            lemma_count_of_absent(front, x);
        } else {
            lemma_count_of_injective(front, x);
        }
    }
}

/// Raising the bound by one copy of the tiles adds the rows that name the
/// copy of `tile` in it.
pub proof fn lemma_occurrences_below_step(a: Seq<usize>, columns: int, tile: int, q: int)
    requires
        columns > 0,
        0 <= tile < columns,
        0 <= q,
    ensures
        occurrences_below(a, columns, tile, columns * (q + 1)) == occurrences_below(
            a,
            columns,
            tile,
            columns * q,
        ) + count_of(a, columns * q + tile),
    decreases a.len(),
{
    if a.len() > 0 {
        lemma_occurrences_below_step(a.drop_last(), columns, tile, q);
        let v = a.last() as int;
        lemma_fundamental_div_mod(v, columns);
        let d = v / columns;
        assert(columns * (q + 1) == columns * q + columns) by (nonlinear_arith);
        if v == columns * q + tile {
            assert(columns * q == q * columns) by (nonlinear_arith);
            lemma_fundamental_div_mod_converse(v, columns, q, tile);
        }
        if v % columns == tile && columns * q <= v < columns * (q + 1) {
            assert(d == q) by (nonlinear_arith)
                requires
                    v == columns * d + tile,
                    0 <= tile < columns,
                    columns * q <= v < columns * q + columns,
            ;
        }
    }
}

/// No row names a column below zero.
pub proof fn lemma_occurrences_below_zero(a: Seq<usize>, columns: int, tile: int)
    ensures
        occurrences_below(a, columns, tile, 0) == 0,
    decreases a.len(),
{
    if a.len() > 0 {
        lemma_occurrences_below_zero(a.drop_last(), columns, tile);
    }
}

/// Where every column is below `hi`, counting below `hi` counts all.
pub proof fn lemma_occurrences_below_all(a: Seq<usize>, columns: int, tile: int, hi: int)
    requires
        in_range(a, hi),
    ensures
        occurrences_below(a, columns, tile, hi) == occurrences(a, columns, tile),
    decreases a.len(),
{
    if a.len() > 0 {
        assert(a[a.len() - 1] < hi);
        assert forall|i: int| 0 <= i < a.drop_last().len() implies 0 <= #[trigger] a.drop_last()[i]
            < hi by {
            assert(a.drop_last()[i] == a[i]);
        }
        lemma_occurrences_below_all(a.drop_last(), columns, tile, hi);
    }
}

/// An injective sequence names at most `q` of the first `q` copies of a tile.
pub proof fn lemma_occurrences_below_injective(a: Seq<usize>, columns: int, tile: int, q: int)
    requires
        injective(a),
        columns > 0,
        0 <= tile < columns,
        0 <= q,
    ensures
        occurrences_below(a, columns, tile, columns * q) <= q,
    decreases q,
{
    if q == 0 {
        assert(columns * q == 0) by (nonlinear_arith)
            requires
                q == 0,
        ;
        lemma_occurrences_below_zero(a, columns, tile);
    } else {
        lemma_occurrences_below_injective(a, columns, tile, q - 1);
        lemma_occurrences_below_step(a, columns, tile, q - 1);
        lemma_count_of_injective(a, columns * (q - 1) + tile);
    }
}

/// A matching of the tiled matrix uses no tile more often than it was tiled.
pub proof fn lemma_matching_is_assignment(m: Costs, n: usize, a: Seq<usize>)
    requires
        m.wf(),
        m.columns * n <= usize::MAX,
        is_matching(m.tile(n), a),
    ensures
        is_assignment(m, n as int, a),
{
    let columns = m.columns as int;
    assert(m.tile(n).columns == columns * n);
    assert forall|tile: int| 0 <= tile < columns implies #[trigger] occurrences(a, columns, tile)
        <= n by {
        lemma_occurrences_below_injective(a, columns, tile, n as int);
        lemma_occurrences_below_all(a, columns, tile, columns * n);
    }
}

/// On columns within the tiled range, the tiled matrix costs what the
/// matrix itself costs.
pub proof fn lemma_tiled_total_cost(m: Costs, n: usize, a: Seq<usize>)
    requires
        m.wf(),
        m.columns * n <= usize::MAX,
        a.len() <= m.rows,
        in_range(a, m.columns * n),
    ensures
        total_cost(m.tile(n), a) == total_cost(m, a),
    decreases a.len(),
{
    if a.len() > 0 {
        let front = a.drop_last();
        let c = a.last() as int;
        assert(a[a.len() - 1] == c);
        assert forall|i: int| 0 <= i < front.len() implies 0 <= #[trigger] front[i] < m.columns
            * n by {
            assert(front[i] == a[i]);
        }
        lemma_tiled_total_cost(m, n, front);
        lemma_tile_cost(m, n, a.len() - 1, c);
        lemma_small_mod(c as nat, (m.columns * n) as nat);
    }
}

/// How often the tile of row `i` is used by the rows before `i`.
pub open spec fn rank(b: Seq<usize>, columns: int, i: int) -> nat {
    occurrences(b.take(i), columns, b[i] as int % columns)
}

/// `b` with the repeated uses of a tile moved to the tile's further copies:
/// the first use stays, the next goes to the copy `columns` further, and so
/// on.
pub open spec fn spread(b: Seq<usize>, columns: int) -> Seq<usize> {
    Seq::new(b.len(), |i: int| (b[i] as int % columns + columns * rank(b, columns, i)) as usize)
}

/// A longer prefix uses a tile at least as often.
pub proof fn lemma_occurrences_prefix(b: Seq<usize>, columns: int, tile: int, n1: int, n2: int)
    requires
        0 <= n1 <= n2 <= b.len(),
    ensures
        occurrences(b.take(n1), columns, tile) <= occurrences(b.take(n2), columns, tile),
    decreases n2 - n1,
{
    if n1 < n2 {
        assert(b.take(n2).drop_last() =~= b.take(n2 - 1));
        lemma_occurrences_prefix(b, columns, tile, n1, n2 - 1);
    }
}

/// Spreading an assignment within the limit gives a matching of the tiled
/// matrix of the same cost.
pub proof fn lemma_spread(m: Costs, n: usize, b: Seq<usize>)
    requires
        m.wf(),
        m.columns * n <= usize::MAX,
        is_assignment(m, n as int, b),
    ensures
        is_matching(m.tile(n), spread(b, m.columns as int)),
        total_cost(m.tile(n), spread(b, m.columns as int)) == total_cost(m, b),
{
    let columns = m.columns as int;
    let wide = columns * n;
    let s = spread(b, columns);
    assert(m.tile(n).columns == wide);
    assert(b.take(b.len() as int) =~= b);
    // Every row's rank is below the limit, so its new column is in range.
    assert forall|i: int| 0 <= i < b.len() implies {
        let t = b[i] as int % columns;
        let k = rank(b, columns, i) as int;
        &&& 0 <= t < columns
        &&& 0 <= k < n
        &&& #[trigger] s[i] == t + columns * k
        &&& 0 <= s[i] < wide
        &&& s[i] as int % columns == t
        &&& s[i] as int / columns == k
    } by {
        let t = b[i] as int % columns;
        let k = rank(b, columns, i) as int;
        lemma_fundamental_div_mod(b[i] as int, columns);
        assert(b.take(i + 1).drop_last() =~= b.take(i));
        assert(b.take(i + 1).last() == b[i]);
        assert(occurrences(b.take(i + 1), columns, t) == k + 1);
        lemma_occurrences_prefix(b, columns, t, i + 1, b.len() as int);
        assert(occurrences(b, columns, t) <= n);
        assert(0 <= t + columns * k < wide) by (nonlinear_arith)
            requires
                0 <= t < columns,
                0 <= k < n,
                wide == columns * n,
        ;
        assert(columns * k == k * columns) by (nonlinear_arith);
        lemma_fundamental_div_mod_converse(t + columns * k, columns, k, t);
    }
    assert(in_range(s, wide));
    assert forall|i: int, j: int| 0 <= i < s.len() && 0 <= j < s.len() && i != j implies s[i]
        != s[j] by {
        if s[i] == s[j] {
            let t = b[i] as int % columns;
            let (lo, hi) = if i < j {
                (i, j)
            } else {
                (j, i)
            };
            assert(s[lo] as int % columns == s[hi] as int % columns);
            assert(s[lo] as int / columns == s[hi] as int / columns);
            assert(b.take(lo + 1).drop_last() =~= b.take(lo));
            assert(b.take(lo + 1).last() == b[lo]);
            lemma_occurrences_prefix(b, columns, b[lo] as int % columns, lo + 1, hi);
        }
    }
    lemma_spread_cost(m, n, b, b.len() as int);
    assert(s.take(s.len() as int) =~= s);
}

/// Spreading leaves the cost of every prefix unchanged.
pub proof fn lemma_spread_cost(m: Costs, n: usize, b: Seq<usize>, len: int)
    requires
        m.wf(),
        m.columns * n <= usize::MAX,
        b.len() <= m.rows,
        0 <= len <= b.len(),
        forall|i: int|
            0 <= i < b.len() ==> 0 <= #[trigger] spread(b, m.columns as int)[i] < m.columns * n
                && spread(b, m.columns as int)[i] as int % (m.columns as int) == b[i] as int % (
            m.columns as int),
    ensures
        total_cost(m.tile(n), spread(b, m.columns as int).take(len)) == total_cost(m, b.take(len)),
    decreases len,
{
    if len > 0 {
        let s = spread(b, m.columns as int);
        lemma_spread_cost(m, n, b, len - 1);
        assert(s.take(len).drop_last() =~= s.take(len - 1));
        assert(b.take(len).drop_last() =~= b.take(len - 1));
        assert(s.take(len).last() == s[len - 1]);
        assert(b.take(len).last() == b[len - 1]);
        lemma_tile_cost(m, n, len - 1, s[len - 1] as int);
        lemma_small_mod(s[len - 1] as nat, (m.columns * n) as nat);
    }
}

/// The cheapest matching of the tiled matrix is the cheapest assignment in
/// which no tile is used more often than the matrix was tiled.
pub proof fn lemma_tiled_optimum(m: Costs, n: usize, a: Seq<usize>)
    requires
        m.wf(),
        m.columns * n <= usize::MAX,
        is_matching(m.tile(n), a),
        forall|b: Seq<usize>|
            is_matching(m.tile(n), b) ==> total_cost(m.tile(n), a) <= #[trigger] total_cost(
                m.tile(n),
                b,
            ),
    ensures
        is_assignment(m, n as int, a),
        cheapest(m, n as int, a),
{
    lemma_matching_is_assignment(m, n, a);
    assert(m.tile(n).columns == m.columns * n);
    assert(m.tile(n).rows == m.rows);
    lemma_tiled_total_cost(m, n, a);
    assert forall|b: Seq<usize>| is_assignment(m, n as int, b) implies total_cost(m, a)
        <= #[trigger] total_cost(m, b) by {
        lemma_spread(m, n, b);
        let s = spread(b, m.columns as int);
        assert(total_cost(m.tile(n), a) <= total_cost(m.tile(n), s));
    }
}

} // verus!
