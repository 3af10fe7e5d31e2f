//! Wiring plan of a one-sided binary-tree crossbar switch.
//!
//! For `n` terminals the switch holds `n - 1` blocks of `n` rows each and at
//! most `n / 2` columns. The enumerator yields every vertical connection of the
//! plan, one for each unordered pair of terminals, so that no wire spans three
//! adjacent blocks and no two wires of a column share a cell.
mod crossbar;
mod laws;
mod plan;

pub use crossbar::{lemma_enumerators_agree, valid_count, Connection, Crossbar, Position};
pub use laws::{
    lemma_block_locality, lemma_column_bound, lemma_every_pair_once, lemma_no_shared_cell,
};
pub use plan::{
    abs_end, abs_start, in_plan, joined, joins, level_len, odd_rep, reverse_col, total, wire,
    wire_at, wraps, Wire,
};
