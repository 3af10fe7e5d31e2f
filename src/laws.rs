use vstd::arithmetic::div_mod::{
    lemma_fundamental_div_mod, lemma_fundamental_div_mod_converse, lemma_mod_pos_bound,
};
use vstd::prelude::*;

use crate::plan::{
    abs_end, abs_start, in_plan, joined, joins, lemma_cursor_index, lemma_index_cursor,
    lemma_total_split, odd_rep, total, wire, wire_at, wraps,
};

verus! {

/// Splits `j` into its repetition `q = j / i` and offset `r = j % i`, with the
/// products `i * q` that the case analysis compares.
proof fn lemma_rep(i: int, j: int)
    requires
        i > 0,
        j >= 0,
    ensures
        j == i * (j / i) + j % i,
        0 <= j % i < i,
        j / i >= 0,
        j / i == 0 ==> i * (j / i) == 0,
        j / i == 1 ==> i * (j / i) == i,
        j / i >= 1 ==> i * (j / i) >= i,
        j / i >= 2 ==> i * (j / i) >= 2 * i,
        j / i >= 3 ==> i * (j / i) >= 3 * i,
        j / i <= 2 ==> i * (j / i) <= 2 * i,
        j < 3 * i <==> j / i < 3,
{
    lemma_fundamental_div_mod(j, i);
    lemma_mod_pos_bound(j, i);
    let q = j / i;
    let r = j % i;
    assert(q >= 0) by {
        if q < 0 {
            assert(i * q <= -i) by (nonlinear_arith)
                requires
                    q < 0,
                    i > 0,
            ;
        }
    }
    assert(q >= 1 ==> i * q >= i) by (nonlinear_arith)
        requires
            i > 0,
    ;
    assert(q >= 2 ==> i * q >= 2 * i) by (nonlinear_arith)
        requires
            i > 0,
    ;
    assert(q >= 3 ==> i * q >= 3 * i) by (nonlinear_arith)
        requires
            i > 0,
    ;
    assert(q <= 2 ==> i * q <= 2 * i) by (nonlinear_arith)
        requires
            i > 0,
    ;
    assert(q == 0 ==> i * q == 0);
    assert(q == 1 ==> i * q == i);
}

/// Two offsets in different repetitions lie at least one span apart, two
/// spans where the repetitions differ by two or more.
proof fn lemma_rep_pair(i: int, j1: int, j2: int)
    requires
        i > 0,
        j1 >= 0,
        j2 >= 0,
    ensures
        j1 / i < j2 / i ==> i * (j1 / i) + i <= i * (j2 / i),
        j1 / i + 1 < j2 / i ==> i * (j1 / i) + 2 * i <= i * (j2 / i),
{
    let q1 = j1 / i;
    let q2 = j2 / i;
    assert(q1 < q2 ==> i * q1 + i <= i * q2) by (nonlinear_arith)
        requires
            i > 0,
    ;
    assert(q1 + 1 < q2 ==> i * q1 + 2 * i <= i * q2) by (nonlinear_arith)
        requires
            i > 0,
    ;
}

/// An index below the plan's size names a cursor of the plan, from which it
/// is recovered as `(i - 1) * n + j`.
proof fn lemma_index_in_plan(n: int, k: int)
    requires
        n >= 1,
        0 <= k < total(n),
    ensures
        in_plan(n, k / n + 1, k % n),
        k == (k / n) * n + k % n,
{
    lemma_total_split(n);
    lemma_rep(n, k);
    let q = k / n;
    let m = n / 2;
    assert(n * q == q * n) by (nonlinear_arith);
    if n % 2 == 1 {
        assert(m * n == n * m) by (nonlinear_arith);
        if q >= m {
            assert(n * q >= n * m) by (nonlinear_arith)
                requires
                    q >= m,
                    n >= 1,
            ;
        }
    } else {
        assert((m - 1) * n == n * (m - 1)) by (nonlinear_arith);
        if q >= m {
            assert(n * q >= n * (m - 1) + n) by (nonlinear_arith)
                requires
                    q >= m,
                    n >= 1,
            ;
        }
        if q == m - 1 {
            assert(k % n < m);
        }
    }
}

/// The value `(i + j) % n` for a cursor of the plan, without the modulus.
proof fn lemma_step_mod(n: int, i: int, j: int)
    requires
        n >= 1,
        in_plan(n, i, j),
    ensures
        i + j < n ==> (i + j) % n == i + j,
        i + j >= n ==> (i + j) % n == i + j - n,
{
    if i + j < n {
        lemma_fundamental_div_mod_converse(i + j, n, 0, i + j);
    } else {
        lemma_fundamental_div_mod_converse(i + j, n, 1, i + j - n);
    }
}

/// Shape of the connection at a cursor of the plan: the terminals it joins,
/// the blocks of its ends, and the span of absolute indices it covers,
/// measured from the first row of block `2 * i - 2`.
proof fn lemma_wire_shape(n: int, i: int, j: int)
    requires
        n >= 1,
        in_plan(n, i, j),
    ensures
        ({
            let w = wire(n, i, j);
            let base = (2 * i - 2) * n;
            let other = if i + j < n {
                i + j
            } else {
                i + j - n
            };
            &&& joins(w, j, other)
            &&& j != other
            &&& 0 <= other < n
            &&& w.start_row < w.end_row ==> w.start_block == w.end_block
            &&& w.start_row > w.end_row ==> w.end_block == w.start_block + 1
            &&& 2 * i == n ==> abs_start(n, w) == base + j && abs_end(n, w) == base + i + j
            &&& (2 * i < n && !odd_rep(i, j)) ==> abs_start(n, w) == base + j && abs_end(n, w)
                == base + i + j
            &&& (2 * i < n && odd_rep(i, j) && !wraps(n, i, j)) ==> abs_start(n, w) == base + n
                + j && abs_end(n, w) == base + n + i + j
            &&& (2 * i < n && odd_rep(i, j) && wraps(n, i, j)) ==> abs_start(n, w) == base + i + j
                && abs_end(n, w) == base + n + j
        }),
{
    lemma_step_mod(n, i, j);
    let base = (2 * i - 2) * n;
    assert((2 * i - 1) * n == base + n) by (nonlinear_arith)
        requires
            base == (2 * i - 2) * n,
    ;
}

/// Every connection of the plan joins two distinct terminals, every unordered
/// pair of terminals `a < b < n` is joined by some connection, and by no more
/// than one.
pub proof fn lemma_every_pair_once(n: int)
    requires
        n >= 1,
    ensures
        forall|k: int|
            0 <= k < total(n) ==> {
                let w = #[trigger] wire_at(n, k);
                0 <= w.start_row < n && 0 <= w.end_row < n && w.start_row != w.end_row
            },
        forall|a: int, b: int|
            0 <= a < b < n ==> #[trigger] joined(n, a, b),
        forall|k1: int, k2: int, a: int, b: int|
            0 <= k1 < total(n) && 0 <= k2 < total(n) && #[trigger] joins(wire_at(n, k1), a, b)
                && #[trigger] joins(wire_at(n, k2), a, b) ==> k1 == k2,
{
    assert forall|k: int| 0 <= k < total(n) implies {
        let w = #[trigger] wire_at(n, k);
        0 <= w.start_row < n && 0 <= w.end_row < n && w.start_row != w.end_row
    } by {
        lemma_index_in_plan(n, k);
        lemma_wire_shape(n, k / n + 1, k % n);
    }
    assert forall|a: int, b: int| 0 <= a < b < n implies #[trigger] joined(n, a, b) by {
        let d = b - a;
        let (i, j) = if 2 * d <= n {
            (d, a)
        } else {
            (n - d, b)
        };
        assert(in_plan(n, i, j));
        lemma_index_cursor(n, i, j);
        lemma_cursor_index(n, i, j);
        lemma_wire_shape(n, i, j);
        let k = (i - 1) * n + j;
        assert(joins(wire_at(n, k), a, b));
    }
    assert forall|k1: int, k2: int, a: int, b: int|
        0 <= k1 < total(n) && 0 <= k2 < total(n) && #[trigger] joins(wire_at(n, k1), a, b)
            && #[trigger] joins(wire_at(n, k2), a, b) implies k1 == k2 by {
        lemma_index_in_plan(n, k1);
        lemma_index_in_plan(n, k2);
        let (i1, j1) = (k1 / n + 1, k1 % n);
        let (i2, j2) = (k2 / n + 1, k2 % n);
        lemma_wire_shape(n, i1, j1);
        lemma_wire_shape(n, i2, j2);
        assert(i1 == i2 && j1 == j2);
    }
}

/// A connection joins two rows of one block when its start row comes first,
/// and otherwise runs from the last rows of a block into the next block; in
/// both cases it ends strictly below where it starts, so it never reaches a
/// third block.
pub proof fn lemma_block_locality(n: int, k: int)
    requires
        n >= 1,
        0 <= k < total(n),
    ensures
        ({
            let w = wire_at(n, k);
            &&& w.start_row < w.end_row ==> w.start_block == w.end_block
            &&& w.start_row > w.end_row ==> w.end_block == w.start_block + 1
            &&& w.start_block <= w.end_block <= w.start_block + 1
            &&& abs_start(n, w) < abs_end(n, w)
        }),
{
    lemma_index_in_plan(n, k);
    let (i, j) = (k / n + 1, k % n);
    lemma_wire_shape(n, i, j);
    if 2 * i < n {
        lemma_rep(i, j);
        lemma_step_mod(n, i, j);
    }
}

/// Every connection runs in a column below `n / 2`.
pub proof fn lemma_column_bound(n: int, k: int)
    requires
        n >= 1,
        0 <= k < total(n),
    ensures
        0 <= wire_at(n, k).col < n / 2,
{
    lemma_index_in_plan(n, k);
    let (i, j) = (k / n + 1, k % n);
    if 2 * i < n {
        lemma_rep(i, j);
    }
}

/// Two connections of one full level that share a column cover disjoint
/// spans, measured from the level's first row.
proof fn lemma_same_level(n: int, i: int, j1: int, j2: int)
    requires
        n >= 1,
        2 * i < n,
        in_plan(n, i, j1),
        in_plan(n, i, j2),
        j1 != j2,
        wire(n, i, j1).col == wire(n, i, j2).col,
    ensures
        abs_end(n, wire(n, i, j1)) <= abs_start(n, wire(n, i, j2)) || abs_end(n, wire(n, i, j2))
            <= abs_start(n, wire(n, i, j1)),
{
    lemma_wire_shape(n, i, j1);
    lemma_wire_shape(n, i, j2);
    lemma_rep(i, j1);
    lemma_rep(i, j2);
    lemma_rep_pair(i, j1, j2);
    lemma_rep_pair(i, j2, j1);
}

/// No two connections of one column cover a common cell: their spans of
/// absolute indices, from start to end, are disjoint.
pub proof fn lemma_no_shared_cell(n: int, k1: int, k2: int)
    requires
        n >= 1,
        0 <= k1 < total(n),
        0 <= k2 < total(n),
        k1 != k2,
        wire_at(n, k1).col == wire_at(n, k2).col,
    ensures
        abs_end(n, wire_at(n, k1)) <= abs_start(n, wire_at(n, k2)) || abs_end(n, wire_at(n, k2))
            <= abs_start(n, wire_at(n, k1)),
{
    lemma_index_in_plan(n, k1);
    lemma_index_in_plan(n, k2);
    let (i1, j1) = (k1 / n + 1, k1 % n);
    let (i2, j2) = (k2 / n + 1, k2 % n);
    lemma_wire_shape(n, i1, j1);
    lemma_wire_shape(n, i2, j2);
    if i1 == i2 {
        assert(j1 != j2);
        if 2 * i1 < n {
            lemma_same_level(n, i1, j1, j2);
        }
    } else {
        if 2 * i1 < n {
            lemma_rep(i1, j1);
            lemma_step_mod(n, i1, j1);
        }
        if 2 * i2 < n {
            lemma_rep(i2, j2);
            lemma_step_mod(n, i2, j2);
        }
        if i1 < i2 {
            assert(2 * i1 * n <= (2 * i2 - 2) * n) by (nonlinear_arith)
                requires
                    i1 < i2,
                    n >= 1,
            ;
            assert(2 * i1 * n == (2 * i1 - 2) * n + 2 * n) by (nonlinear_arith);
        } else {
            assert(2 * i2 * n <= (2 * i1 - 2) * n) by (nonlinear_arith)
                requires
                    i2 < i1,
                    n >= 1,
            ;
            assert(2 * i2 * n == (2 * i2 - 2) * n + 2 * n) by (nonlinear_arith);
        }
    }
}

} // verus!
