use xbar::{Connection, Crossbar};

#[test]
fn test_iter() {
    for n in 1..100 {
        println!("testing n = {}", n);
        let w = n * (n - 1);
        let mut buf: Vec<Vec<i32>> = vec![vec![0; w]; n / 2];
        let mut mat: Vec<Vec<i32>> = vec![vec![0; n]; n];
        for (i, row) in mat.iter_mut().enumerate().take(n) {
            row[i] = 1;
        }
        let mut it = Crossbar::new(n);
        while let Some(val) = it.next() {
            assert_eq!(
                val.start.abs_idx,
                val.start.row_idx + n * val.start.block_idx
            );
            assert_eq!(val.end.abs_idx, val.end.row_idx + n * val.end.block_idx);
            mat[val.start.row_idx][val.end.row_idx] += 1;
            mat[val.end.row_idx][val.start.row_idx] += 1;
            for k in val.start.abs_idx..val.end.abs_idx {
                assert_eq!(buf[val.col_idx][k], 0);
                buf[val.col_idx][k] += 1;
            }
            for row in buf.iter().take(val.col_idx) {
                let mut empty_line = true;
                for elem in row.iter().take(val.end.abs_idx).skip(val.start.abs_idx) {
                    if elem != &0 {
                        empty_line = false;
                        break;
                    }
                }
                assert_eq!(empty_line, false);
            }
        }
        for row in mat.iter().take(n) {
            for elem in row.iter().take(n) {
                assert_eq!(elem, &1);
            }
        }
    }
}

#[test]
fn five_terminals() {
    assert_eq!(Crossbar::blocks(5), 4);
    assert_eq!(Crossbar::rows(5), 20);
    assert_eq!(Crossbar::columns(5), 2);
    let mut it = Crossbar::new(5);
    let first: Connection = it.next().unwrap();
    assert_eq!(first.start.row_idx, 0);
    assert_eq!(first.end.row_idx, 1);
    assert_eq!(first.col_idx, 0);
    assert_eq!(first.start.block_idx, 0);
    assert_eq!(first.end.block_idx, 0);
    assert_eq!(first.start.abs_idx, 0);
    assert_eq!(first.end.abs_idx, 1);
}

#[test]
fn ten_terminals() {
    assert_eq!(Crossbar::blocks(10), 9);
    assert_eq!(Crossbar::rows(10), 90);
    assert_eq!(Crossbar::columns(10), 5);
    assert_eq!(Crossbar::connections(10).len(), 45);
    let mut it = Crossbar::new(10);
    let mut count = 0;
    while it.next().is_some() {
        count += 1;
    }
    assert_eq!(count, 45);
}

#[test]
fn two_terminals() {
    assert_eq!(Crossbar::blocks(2), 1);
    assert_eq!(Crossbar::rows(2), 2);
    assert_eq!(Crossbar::columns(2), 1);
    let all = Crossbar::connections(2);
    assert_eq!(all.len(), 1);
    let c = &all[0];
    assert_eq!((c.start.row_idx, c.end.row_idx), (0, 1));
    assert_eq!((c.start.block_idx, c.end.block_idx, c.col_idx), (0, 0, 0));
}

#[test]
fn one_terminal_is_empty() {
    assert_eq!(Crossbar::blocks(1), 0);
    assert_eq!(Crossbar::rows(1), 0);
    assert_eq!(Crossbar::columns(1), 0);
    let mut it = Crossbar::new(1);
    assert!(it.next().is_none());
    assert!(Crossbar::connections(1).is_empty());
}

#[test]
fn exhausted_stays_exhausted() {
    let mut it = Crossbar::new(4);
    for _ in 0..6 {
        assert!(it.next().is_some());
    }
    assert!(it.next().is_none());
    assert!(it.next().is_none());
    assert_eq!(it.count, 4);
}

#[test]
fn count_is_pairs() {
    for n in 1..60usize {
        assert_eq!(Crossbar::connections(n).len(), n * (n - 1) / 2);
    }
}

#[test]
fn every_pair_once() {
    for n in 1..40usize {
        let mut seen = vec![vec![0u32; n]; n];
        for c in Crossbar::connections(n) {
            assert!(c.start.row_idx < n && c.end.row_idx < n);
            assert_ne!(c.start.row_idx, c.end.row_idx);
            let a = c.start.row_idx.min(c.end.row_idx);
            let b = c.start.row_idx.max(c.end.row_idx);
            seen[a][b] += 1;
        }
        for a in 0..n {
            for b in a + 1..n {
                assert_eq!(seen[a][b], 1);
            }
        }
    }
}

#[test]
fn blocks_stay_local() {
    for n in 2..60usize {
        for c in Crossbar::connections(n) {
            if c.start.row_idx < c.end.row_idx {
                assert_eq!(c.start.block_idx, c.end.block_idx);
            } else {
                assert_eq!(c.end.block_idx, c.start.block_idx + 1);
            }
            assert!(c.start.abs_idx < c.end.abs_idx);
            assert!(c.end.block_idx < Crossbar::blocks(n));
        }
    }
}

#[test]
fn wrapping_connection_enters_next_block() {
    // n = 5, level 1, offset 4: joins terminal 4 of block 0 to terminal 0 of block 1.
    let all = Crossbar::connections(5);
    let c = &all[4];
    assert_eq!((c.start.block_idx, c.start.row_idx), (0, 4));
    assert_eq!((c.end.block_idx, c.end.row_idx), (1, 0));
    assert_eq!((c.start.abs_idx, c.end.abs_idx, c.col_idx), (4, 5, 0));
}

#[test]
fn reverse_connection_columns() {
    // n = 9, level 2, offset 7: odd repetition that wraps, drawn in reverse
    // in column 2 + min(7 % 2, 7 + 2 - 9) = 2.
    let all = Crossbar::connections(9);
    let c = &all[9 + 7];
    assert_eq!((c.start.block_idx, c.start.row_idx), (3, 0));
    assert_eq!((c.end.block_idx, c.end.row_idx), (3, 7));
    assert_eq!(c.col_idx, 2);
    assert_eq!((c.start.abs_idx, c.end.abs_idx), (27, 34));
}

#[test]
fn columns_in_bound() {
    for n in 1..80usize {
        for c in Crossbar::connections(n) {
            assert!(c.col_idx < Crossbar::columns(n));
        }
    }
}

#[test]
fn abs_index_consistent() {
    for n in 1..50usize {
        let mut it = Crossbar::new(n);
        while let Some(c) = it.next() {
            assert_eq!(c.start.abs_idx, c.start.row_idx + c.start.block_idx * n);
            assert_eq!(c.end.abs_idx, c.end.row_idx + c.end.block_idx * n);
        }
    }
}

#[test]
fn no_shared_cell() {
    for n in 2..60usize {
        let mut used = vec![vec![false; n * (n - 1)]; n / 2];
        for c in Crossbar::connections(n) {
            for k in c.start.abs_idx..c.end.abs_idx {
                assert!(!used[c.col_idx][k]);
                used[c.col_idx][k] = true;
            }
        }
    }
}

#[test]
fn fresh_enumerators_agree() {
    for n in 1..40usize {
        let mut a = Crossbar::new(n);
        let mut b = Crossbar::new(n);
        loop {
            match (a.next(), b.next()) {
                (Some(x), Some(y)) => {
                    assert_eq!(
                        (x.start.block_idx, x.start.row_idx, x.start.abs_idx),
                        (y.start.block_idx, y.start.row_idx, y.start.abs_idx)
                    );
                    assert_eq!(
                        (x.end.block_idx, x.end.row_idx, x.end.abs_idx, x.col_idx),
                        (y.end.block_idx, y.end.row_idx, y.end.abs_idx, y.col_idx)
                    );
                }
                (None, None) => break,
                _ => panic!("enumerators disagree on length"),
            }
        }
    }
}
