use vstd::arithmetic::div_mod::lemma_fundamental_div_mod_converse;
use vstd::prelude::*;

use crate::plan::{
    in_plan, lemma_abs_fits, lemma_count_small, lemma_cursor_index, lemma_index_cursor, level_len,
    odd_rep, total, wire, wire_at, wraps, Wire,
};

verus! {

/// The location of a row: its block, its offset within the block, and its
/// absolute index `row_idx + block_idx * n`.
#[derive(Debug)]
pub struct Position {
    /// Index of the block that the position is in.
    pub block_idx: usize,
    /// Row offset within the block: the terminal number.
    pub row_idx: usize,
    /// Absolute index, always `row_idx + block_idx * n`.
    pub abs_idx: usize,
}

/// A vertical link between two rows.
#[derive(Debug)]
pub struct Connection {
    /// Start position of the connection.
    pub start: Position,
    /// End position of the connection.
    pub end: Position,
    /// Column index of the connection.
    pub col_idx: usize,
}

/// Enumerator of the connections of a crossbar with `count` terminals.
#[derive(Debug)]
pub struct Crossbar {
    /// Number of terminals.
    pub count: usize,
    inner_idx: usize,
    outer_idx: usize,
}

impl Position {
    /// The absolute index agrees with block and row for `n` rows per block.
    pub open spec fn placed(&self, n: int) -> bool {
        self.abs_idx == self.row_idx + self.block_idx * n
    }

    fn new(block_idx: usize, row_idx: usize, count: usize) -> (r: Self)
        requires
            row_idx + block_idx * count <= usize::MAX,
        ensures
            r.block_idx == block_idx,
            r.row_idx == row_idx,
            r.placed(count as int),
    {
        Self { block_idx, row_idx, abs_idx: row_idx + block_idx * count }
    }
}

impl View for Connection {
    type V = Wire;

    open spec fn view(&self) -> Wire {
        Wire {
            start_block: self.start.block_idx as int,
            start_row: self.start.row_idx as int,
            end_block: self.end.block_idx as int,
            end_row: self.end.row_idx as int,
            col: self.col_idx as int,
        }
    }
}

impl Connection {
    /// Both endpoints carry absolute indices consistent with `n` rows per block.
    pub open spec fn placed(&self, n: int) -> bool {
        self.start.placed(n) && self.end.placed(n)
    }
}

/// The terminal count is one the plan is defined for, and every absolute
/// index of its plan fits in a `usize`.
pub open spec fn valid_count(n: int) -> bool {
    1 <= n && n * (n - 1) <= usize::MAX
}

impl Crossbar {
    /// Number of terminals of the crossbar enumerated.
    pub closed spec fn terminals(&self) -> int {
        self.count as int
    }

    /// The cursors stand on a connection of the plan, or past its end.
    pub closed spec fn wf(&self) -> bool {
        &&& valid_count(self.count as int)
        &&& 4 * self.count <= usize::MAX
        &&& 1 <= self.outer_idx
        &&& if 2 * self.outer_idx <= self.count {
            self.inner_idx < level_len(self.count as int, self.outer_idx as int)
        } else {
            self.inner_idx == 0 && 2 * self.outer_idx <= self.count + 2
        }
    }

    /// How many connections this enumerator has yielded so far.
    pub closed spec fn produced(&self) -> int {
        if 2 * self.outer_idx > self.count {
            total(self.count as int)
        } else {
            (self.outer_idx - 1) * self.count + self.inner_idx
        }
    }

    proof fn lemma_produced_bound(&self)
        requires
            self.wf(),
        ensures
            0 <= self.produced() <= total(self.count as int),
            self.produced() < total(self.count as int) <==> 2 * self.outer_idx
                <= self.count,
            2 * self.outer_idx <= self.count ==> self.produced() == (self.outer_idx - 1)
                * self.count + self.inner_idx,
    {
        let n = self.count as int;
        if 2 * self.outer_idx <= self.count {
            lemma_cursor_index(n, self.outer_idx as int, self.inner_idx as int);
        } else {
            assert(n * (n - 1) / 2 >= 0) by (nonlinear_arith)
                requires
                    n >= 1,
            ;
        }
    }

    /// Returns an enumerator of the connections of a crossbar with `count`
    /// terminals, standing before the first one.
    pub fn new(count: usize) -> (r: Self)
        requires
            valid_count(count as int),
        ensures
            r.wf(),
            r.terminals() == count,
            r.produced() == 0,
    {
        proof {
            lemma_count_small(count as int);
        }
        Self { count, inner_idx: 0, outer_idx: 1 }
    }

    /// Number of blocks of a crossbar with `count` terminals: `count - 1`.
    pub fn blocks(count: usize) -> (r: usize)
        requires
            count >= 1,
        ensures
            r == count - 1,
    {
        count - 1
    }

    /// Number of rows of a crossbar with `count` terminals: `count * (count - 1)`,
    /// `count - 1` blocks of `count` rows each.
    pub fn rows(count: usize) -> (r: usize)
        requires
            valid_count(count as int),
        ensures
            r == count * (count - 1),
    {
        count * (count - 1)
    }

    /// Number of columns of a crossbar with `count` terminals: `count / 2`.
    pub fn columns(count: usize) -> (r: usize)
        ensures
            r == count / 2,
    {
        count / 2
    }

    fn b2i(b: bool) -> (r: usize)
        ensures
            r == (if b { 1usize } else { 0usize }),
    {
        if b {
            1
        } else {
            0
        }
    }

    fn full_block_reverse(n: usize, i: usize, j: usize) -> (r: Connection)
        requires
            valid_count(n as int),
            in_plan(n as int, i as int, j as int),
            2 * i < n,
            odd_rep(i as int, j as int),
            wraps(n as int, i as int, j as int),
        ensures
            r@ == wire(n as int, i as int, j as int),
            r.placed(n as int),
    {
        proof {
            lemma_count_small(n as int);
        }
        let block = 2 * i - 1;
        let col = if j < 3 * i {
            j % i
        } else if j % i <= j + i - n {
            i + j % i
        } else {
            i + (j + i - n)
        };
        proof {
            lemma_abs_fits(n as int, block as int, (i + j - n) as int);
            lemma_abs_fits(n as int, block as int, j as int);
        }
        Connection {
            start: Position::new(block, i + j - n, n),
            end: Position::new(block, j, n),
            col_idx: col,
        }
    }

    fn full_block_forward(n: usize, i: usize, j: usize, is_odd: bool, is_wrap: bool) -> (r:
        Connection)
        requires
            valid_count(n as int),
            in_plan(n as int, i as int, j as int),
            2 * i < n,
            is_odd == odd_rep(i as int, j as int),
            is_wrap == wraps(n as int, i as int, j as int),
            !(is_odd && is_wrap),
        ensures
            r@ == wire(n as int, i as int, j as int),
            r.placed(n as int),
    {
        proof {
            lemma_count_small(n as int);
        }
        let block = 2 * i - 2;
        let start_block = block + Self::b2i(is_odd);
        let end_block = block + Self::b2i(is_odd || is_wrap);
        let end_row = (i + j) % n;
        proof {
            lemma_abs_fits(n as int, start_block as int, j as int);
            lemma_abs_fits(n as int, end_block as int, end_row as int);
        }
        Connection {
            start: Position::new(start_block, j, n),
            end: Position::new(end_block, end_row, n),
            col_idx: j % i,
        }
    }

    fn full_block(n: usize, i: usize, j: usize) -> (r: Connection)
        requires
            valid_count(n as int),
            in_plan(n as int, i as int, j as int),
            2 * i < n,
        ensures
            r@ == wire(n as int, i as int, j as int),
            r.placed(n as int),
    {
        proof {
            lemma_count_small(n as int);
        }
        let q = j / i;
        let is_odd = (q & 1) == 1;
        assert(is_odd == (q % 2 == 1)) by (bit_vector)
            requires
                is_odd == ((q & 1) == 1),
        ;
        let is_wrap = i + j >= n;
        if is_odd && is_wrap {
            Self::full_block_reverse(n, i, j)
        } else {
            Self::full_block_forward(n, i, j, is_odd, is_wrap)
        }
    }

    fn half_block(n: usize, i: usize, j: usize) -> (r: Connection)
        requires
            valid_count(n as int),
            in_plan(n as int, i as int, j as int),
            2 * i == n,
        ensures
            r@ == wire(n as int, i as int, j as int),
            r.placed(n as int),
    {
        let block = 2 * i - 2;
        proof {
            lemma_abs_fits(n as int, block as int, j as int);
            lemma_abs_fits(n as int, block as int, (i + j) as int);
        }
        Connection {
            start: Position::new(block, j, n),
            end: Position::new(block, i + j, n),
            col_idx: j,
        }
    }

    fn step(&mut self, inner_lim: usize)
        requires
            old(self).wf(),
            2 * old(self).outer_idx <= old(self).count,
            inner_lim == level_len(old(self).terminals(), old(self).outer_idx as int),
        ensures
            final(self).wf(),
            final(self).terminals() == old(self).terminals(),
            final(self).produced() == old(self).produced() + 1,
    {
        proof {
            self.lemma_produced_bound();
        }
        self.inner_idx += 1;
        if self.inner_idx >= inner_lim {
            self.inner_idx = 0;
            self.outer_idx += 1;
        }
        proof {
            let n = self.count as int;
            let o = self.outer_idx as int;
            if self.inner_idx == 0 {
                assert((o - 1) * n == (o - 2) * n + n) by (nonlinear_arith);
                if 2 * o > n {
                    lemma_cursor_index(n, o - 1, inner_lim - 1);
                }
            }
            self.lemma_produced_bound();
        }
    }

    /// Yields the next connection of the plan, or `None` once all of them
    /// have been yielded.
    pub fn next(&mut self) -> (r: Option<Connection>)
        requires
            old(self).wf(),
        ensures
            final(self).wf(),
            final(self).terminals() == old(self).terminals(),
            r is Some <==> old(self).produced() < total(old(self).terminals()),
            r is Some ==> final(self).produced() == old(self).produced() + 1,
            r is Some ==> r->0@ == wire_at(old(self).terminals(), old(self).produced()),
            r is Some ==> r->0.placed(old(self).terminals()),
            r is None ==> *final(self) == *old(self),
    {
        proof {
            self.lemma_produced_bound();
        }
        let rem = 2 * self.outer_idx;
        if rem > self.count {
            None
        } else {
            proof {
                lemma_index_cursor(self.count as int, self.outer_idx as int, self.inner_idx as int);
            }
            if rem == self.count {
                let o = self.outer_idx;
                let conn = Self::half_block(self.count, o, self.inner_idx);
                self.step(o);
                Some(conn)
            } else {
                let c = self.count;
                let conn = Self::full_block(c, self.outer_idx, self.inner_idx);
                self.step(c);
                Some(conn)
            }
        }
    }

    /// All connections of a crossbar with `count` terminals, in the order the
    /// enumerator yields them.
    pub fn connections(count: usize) -> (r: Vec<Connection>)
        requires
            valid_count(count as int),
        ensures
            r@.len() == total(count as int),
            forall|k: int|
                0 <= k < r@.len() ==> #[trigger] r@[k]@ == wire_at(count as int, k)
                    && r@[k].placed(count as int),
    {
        let mut it = Self::new(count);
        let mut out: Vec<Connection> = Vec::new();
        loop
            invariant
                it.wf(),
                it.terminals() == count,
                out@.len() == it.produced(),
                forall|k: int|
                    0 <= k < out@.len() ==> #[trigger] out@[k]@ == wire_at(count as int, k)
                        && out@[k].placed(count as int),
            ensures
                out@.len() == total(count as int),
                forall|k: int|
                    0 <= k < out@.len() ==> #[trigger] out@[k]@ == wire_at(count as int, k)
                        && out@[k].placed(count as int),
            decreases total(count as int) - it.produced(),
        {
            proof {
                it.lemma_produced_bound();
            }
            match it.next() {
                Some(c) => out.push(c),
                None => {
                    proof {
                        it.lemma_produced_bound();
                    }
                    assert(out@.len() == total(count as int));
                    break;
                },
            }
        }
        out
    }
}

/// The state of an enumerator is fixed by its terminal count and by how many
/// connections it has yielded. Since `next` yields connection number
/// `produced()` of the plan, two enumerators built by `new` for one count
/// yield the same connections in the same order.
pub proof fn lemma_enumerators_agree(a: &Crossbar, b: &Crossbar)
    requires
        a.wf(),
        b.wf(),
        a.terminals() == b.terminals(),
        a.produced() == b.produced(),
    ensures
        *a == *b,
{
    a.lemma_produced_bound();
    b.lemma_produced_bound();
    let n = a.count as int;
    if 2 * a.outer_idx <= a.count {
        let x = a.produced();
        lemma_fundamental_div_mod_converse(x, n, a.outer_idx - 1, a.inner_idx as int);
        lemma_fundamental_div_mod_converse(x, n, b.outer_idx - 1, b.inner_idx as int);
    }
}

} // verus!
