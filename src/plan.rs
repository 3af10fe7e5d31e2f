use vstd::arithmetic::div_mod::lemma_fundamental_div_mod_converse;
use vstd::prelude::*;

verus! {

/// The mathematical content of one connection: the block and row of both
/// endpoints, and the column that carries the wire.
pub struct Wire {
    pub start_block: int,
    pub start_row: int,
    pub end_block: int,
    pub end_row: int,
    pub col: int,
}

/// Number of connections in the plan for `n` terminals: one per unordered pair.
pub open spec fn total(n: int) -> int {
    n * (n - 1) / 2
}

/// Number of connections that level `i` contributes: `n` for a full level,
/// `i` for the half level `2 * i == n`.
pub open spec fn level_len(n: int, i: int) -> int {
    if 2 * i == n {
        i
    } else {
        n
    }
}

/// The cursor pair `(i, j)` names a connection of the plan.
pub open spec fn in_plan(n: int, i: int, j: int) -> bool {
    &&& 1 <= i
    &&& 2 * i <= n
    &&& 0 <= j < level_len(n, i)
}

/// Whether the repetition index `j / i` is odd.
pub open spec fn odd_rep(i: int, j: int) -> bool {
    (j / i) % 2 == 1
}

/// Whether stepping `i` terminals from `j` passes the last terminal.
pub open spec fn wraps(n: int, i: int, j: int) -> bool {
    i + j >= n
}

/// Column of a connection drawn in reverse.
pub open spec fn reverse_col(n: int, i: int, j: int) -> int {
    if j < 3 * i {
        j % i
    } else if j % i <= j + i - n {
        i + j % i
    } else {
        i + (j + i - n)
    }
}

/// The connection at cursor `(i, j)`: half block when `2 * i == n`, else a
/// full block, drawn in reverse when the repetition is odd and the span wraps.
pub open spec fn wire(n: int, i: int, j: int) -> Wire {
    if 2 * i == n {
        Wire { start_block: 2 * i - 2, start_row: j, end_block: 2 * i - 2, end_row: i + j, col: j }
    } else if odd_rep(i, j) && wraps(n, i, j) {
        Wire {
            start_block: 2 * i - 1,
            start_row: i + j - n,
            end_block: 2 * i - 1,
            end_row: j,
            col: reverse_col(n, i, j),
        }
    } else {
        Wire {
            start_block: 2 * i - 2 + (if odd_rep(i, j) { 1int } else { 0 }),
            start_row: j,
            end_block: 2 * i - 2 + (if odd_rep(i, j) || wraps(n, i, j) { 1int } else { 0 }),
            end_row: (i + j) % n,
            col: j % i,
        }
    }
}

/// The `k`-th connection of the plan, in the order the enumerator yields them.
pub open spec fn wire_at(n: int, k: int) -> Wire {
    wire(n, k / n + 1, k % n)
}

/// Absolute index of the start of a wire, with `n` rows per block.
pub open spec fn abs_start(n: int, w: Wire) -> int {
    w.start_row + w.start_block * n
}

/// Absolute index of the end of a wire, with `n` rows per block.
pub open spec fn abs_end(n: int, w: Wire) -> int {
    w.end_row + w.end_block * n
}

/// Some connection of the plan for `n` terminals joins `a` and `b`.
pub open spec fn joined(n: int, a: int, b: int) -> bool {
    exists|k: int| 0 <= k < total(n) && #[trigger] joins(wire_at(n, k), a, b)
}

/// The wire joins terminals `a` and `b`, in either order.
pub open spec fn joins(w: Wire, a: int, b: int) -> bool {
    (w.start_row == a && w.end_row == b) || (w.start_row == b && w.end_row == a)
}

/// The plan's size splits by parity: `m` full levels for `n == 2 * m + 1`,
/// and `m - 1` full levels and a half level for `n == 2 * m`.
pub proof fn lemma_total_split(n: int)
    requires
        n >= 1,
    ensures
        n % 2 == 1 ==> total(n) == (n / 2) * n,
        n % 2 == 0 ==> total(n) == (n / 2 - 1) * n + n / 2,
        total(n) >= 0,
{
    let m = n / 2;
    if n % 2 == 1 {
        assert(n * (n - 1) == 2 * (m * n)) by (nonlinear_arith)
            requires
                n == 2 * m + 1,
        ;
    } else {
        assert(n * (n - 1) == 2 * ((m - 1) * n + m)) by (nonlinear_arith)
            requires
                n == 2 * m,
        ;
    }
    assert(n * (n - 1) >= 0) by (nonlinear_arith)
        requires
            n >= 1,
    ;
}

/// The cursor `(i, j)` stands at index `(i - 1) * n + j` of the plan.
pub proof fn lemma_cursor_index(n: int, i: int, j: int)
    requires
        n >= 1,
        in_plan(n, i, j),
    ensures
        0 <= (i - 1) * n + j < total(n),
        2 * (i + 1) > n && j == level_len(n, i) - 1 ==> (i - 1) * n + j == total(n) - 1,
{
    lemma_total_split(n);
    let m = n / 2;
    assert(0 <= (i - 1) * n) by (nonlinear_arith)
        requires
            i >= 1,
            n >= 1,
    ;
    if 2 * i == n {
        assert(n % 2 == 0 && i == m);
    } else if n % 2 == 1 {
        assert(i <= m);
        assert((i - 1) * n + n <= m * n) by (nonlinear_arith)
            requires
                i <= m,
                n >= 1,
        ;
        if 2 * (i + 1) > n {
            assert(i == m);
            assert((i - 1) * n + n == m * n) by (nonlinear_arith)
                requires
                    i == m,
            ;
        }
    } else {
        assert(i <= m - 1);
        assert((i - 1) * n + n <= (m - 1) * n) by (nonlinear_arith)
            requires
                i <= m - 1,
                n >= 1,
        ;
    }
}

/// Index `(i - 1) * n + j` of the plan is the connection at cursor `(i, j)`.
pub proof fn lemma_index_cursor(n: int, i: int, j: int)
    requires
        n >= 1,
        in_plan(n, i, j),
    ensures
        ((i - 1) * n + j) / n == i - 1,
        ((i - 1) * n + j) % n == j,
        wire_at(n, (i - 1) * n + j) == wire(n, i, j),
{
    lemma_fundamental_div_mod_converse((i - 1) * n + j, n, i - 1, j);
}

/// A row of a block other than the last one has an absolute index below `n * (n - 1)`.
pub proof fn lemma_abs_fits(n: int, block: int, row: int)
    requires
        n >= 1,
        0 <= block <= n - 2,
        0 <= row < n,
    ensures
        0 <= row + block * n < n * (n - 1),
{
    assert(0 <= row + block * n < n * (n - 1)) by (nonlinear_arith)
        requires
            0 <= block <= n - 2,
            0 <= row < n,
    ;
}

/// A count whose rows number at most `usize::MAX` is at most a quarter of it.
pub proof fn lemma_count_small(n: int)
    requires
        1 <= n,
        n * (n - 1) <= usize::MAX,
    ensures
        4 * n <= usize::MAX,
{
    if n >= 5 {
        assert(4 * n <= n * (n - 1)) by (nonlinear_arith)
            requires
                n >= 5,
        ;
    }
}

} // verus!
