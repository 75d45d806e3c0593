use castles::{n_castles_backtrack, NCastlesState};
use std::collections::BTreeSet;

fn all(size: usize) -> Vec<Vec<isize>> {
    n_castles_backtrack(size).collect().iter().map(|board| board.filled().clone()).collect()
}

fn factorial(n: usize) -> usize {
    (1..=n).product()
}

#[test]
fn size_zero_yields_the_empty_board_once() {
    let mut search = n_castles_backtrack(0);
    let first = search.next().expect("one board");
    assert_eq!(first.filled(), &Vec::<isize>::new());
    assert!(first.is_solution());
    assert!(first.full_filled());
    assert!(search.next().is_none());
    assert_eq!(all(0), vec![Vec::<isize>::new()]);
}

#[test]
fn size_one_yields_one_board() {
    let mut search = n_castles_backtrack(1);
    let first = search.next().expect("one board");
    assert_eq!(first.filled(), &vec![0]);
    assert!(search.next().is_none());
    assert_eq!(all(1), vec![vec![0]]);
}

#[test]
fn size_two_yields_both_orders_once_each() {
    let boards = all(2);
    assert_eq!(boards.len(), 2);
    assert_eq!(boards.iter().filter(|b| **b == vec![0, 1]).count(), 1);
    assert_eq!(boards.iter().filter(|b| **b == vec![1, 0]).count(), 1);
}

#[test]
fn size_two_comes_highest_column_first() {
    assert_eq!(all(2), vec![vec![1, 0], vec![0, 1]]);
}

#[test]
fn size_three_yields_six_distinct_permutations() {
    let boards = all(3);
    assert_eq!(boards.len(), 6);
    let distinct: BTreeSet<Vec<isize>> = boards.iter().cloned().collect();
    assert_eq!(distinct.len(), 6);
    for board in &boards {
        let mut sorted = board.clone();
        sorted.sort();
        assert_eq!(sorted, vec![0, 1, 2]);
    }
}

#[test]
fn size_three_comes_in_descending_dictionary_order() {
    assert_eq!(
        all(3),
        vec![
            vec![2, 1, 0],
            vec![2, 0, 1],
            vec![1, 2, 0],
            vec![1, 0, 2],
            vec![0, 2, 1],
            vec![0, 1, 2],
        ]
    );
}

#[test]
fn number_of_boards_is_the_factorial_of_the_size() {
    assert_eq!(factorial(0), 1);
    assert_eq!(factorial(4), 24);
    assert_eq!(factorial(7), 5040);
    for size in 0..=7 {
        assert_eq!(all(size).len(), factorial(size), "size {}", size);
    }
}

#[test]
fn every_board_is_a_permutation_of_the_columns() {
    for size in 0..=6 {
        let columns: Vec<isize> = (0..size as isize).collect();
        let mut search = n_castles_backtrack(size);
        while let Some(board) = search.next() {
            assert_eq!(board.size(), size as isize);
            assert!(board.is_solution());
            assert!(board.full_filled());
            assert!(board.unused_columns().is_empty());
            let mut sorted = board.filled().clone();
            sorted.sort();
            assert_eq!(sorted, columns);
        }
    }
}

#[test]
fn no_board_comes_twice() {
    for size in 0..=6 {
        let boards = all(size);
        let distinct: BTreeSet<Vec<isize>> = boards.iter().cloned().collect();
        assert_eq!(distinct.len(), boards.len());
    }
}

#[test]
fn boards_come_in_strictly_descending_order() {
    for size in 0..=6 {
        let boards = all(size);
        for pair in boards.windows(2) {
            assert!(pair[0] > pair[1]);
        }
    }
}

#[test]
fn every_permutation_of_four_columns_is_found() {
    let boards: BTreeSet<Vec<isize>> = all(4).into_iter().collect();
    for a in 0..4isize {
        for b in 0..4isize {
            for c in 0..4isize {
                for d in 0..4isize {
                    let candidate = vec![a, b, c, d];
                    let distinct: BTreeSet<isize> = candidate.iter().cloned().collect();
                    assert_eq!(boards.contains(&candidate), distinct.len() == 4);
                }
            }
        }
    }
}

#[test]
fn next_keeps_returning_none_after_the_end() {
    let mut search = n_castles_backtrack(2);
    assert!(search.next().is_some());
    assert!(search.next().is_some());
    assert!(search.next().is_none());
    assert!(search.next().is_none());
    assert_eq!(search.frontier_len(), 0);
    assert!(search.collect().is_empty());
}

#[test]
fn collect_hands_out_what_next_has_not() {
    let mut search = n_castles_backtrack(3);
    let first = search.next().expect("a board");
    let second = search.next().expect("a board");
    assert_eq!(first.filled(), &vec![2, 1, 0]);
    assert_eq!(second.filled(), &vec![2, 0, 1]);
    let rest: Vec<Vec<isize>> =
        search.collect().iter().map(|board| board.filled().clone()).collect();
    assert_eq!(rest, vec![vec![1, 2, 0], vec![1, 0, 2], vec![0, 2, 1], vec![0, 1, 2]]);
}

#[test]
fn first_board_of_five_does_not_run_the_whole_search() {
    let mut search = n_castles_backtrack(5);
    assert_eq!(search.size(), 5);
    assert_eq!(search.frontier_len(), 1);
    let first = search.next().expect("a board");
    assert_eq!(first.filled(), &vec![4, 3, 2, 1, 0]);
    // The boards that wait are the untried siblings along one path, far
    // fewer than the 119 boards that are still to come.
    assert_eq!(search.frontier_len(), 10);
    assert_eq!(search.collect().len(), 119);
}

#[test]
fn first_board_of_a_large_size_comes_at_once() {
    // 20! boards could never be listed within the time a test has.
    let mut search = n_castles_backtrack(20);
    let first = search.next().expect("a board");
    let expected: Vec<isize> = (0..20).rev().collect();
    assert_eq!(first.filled(), &expected);
    let second = search.next().expect("a board");
    let mut swapped = expected.clone();
    swapped.swap(18, 19);
    assert_eq!(second.filled(), &swapped);
}

/// For each row, the free columns below the column of that row.
fn untried(board: &[isize]) -> usize {
    let mut count = 0;
    for (row, &column) in board.iter().enumerate() {
        count += (0..column).filter(|c| !board[..row].contains(c)).count();
    }
    count
}

#[test]
fn untried_counts_lower_free_columns_row_by_row() {
    assert_eq!(untried(&[]), 0);
    assert_eq!(untried(&[0, 1, 2]), 0);
    assert_eq!(untried(&[2, 0, 1]), 2);
    assert_eq!(untried(&[2, 1, 0]), 3);
    assert_eq!(untried(&[4, 3, 2, 1, 0]), 10);
}

#[test]
fn frontier_is_one_before_the_first_board() {
    for size in 0..=5 {
        assert_eq!(n_castles_backtrack(size).frontier_len(), 1);
    }
}

#[test]
fn frontier_holds_the_untried_branches_of_the_last_board() {
    for size in 0..=6 {
        let mut search = n_castles_backtrack(size);
        while let Some(board) = search.next() {
            assert_eq!(search.frontier_len(), untried(board.filled()));
        }
        assert_eq!(search.frontier_len(), 0);
    }
}

#[test]
fn frontier_after_each_board_of_size_three() {
    let mut search = n_castles_backtrack(3);
    let mut seen = Vec::new();
    while let Some(board) = search.next() {
        seen.push((board.filled().clone(), search.frontier_len()));
    }
    assert_eq!(
        seen,
        vec![
            (vec![2, 1, 0], 3),
            (vec![2, 0, 1], 2),
            (vec![1, 2, 0], 2),
            (vec![1, 0, 2], 1),
            (vec![0, 2, 1], 1),
            (vec![0, 1, 2], 0),
        ]
    );
}

#[test]
fn frontier_stays_within_the_square_of_the_size() {
    for size in 0..=6usize {
        let mut search = n_castles_backtrack(size);
        assert!(search.frontier_len() <= size * size + 1);
        while let Some(_) = search.next() {
            assert!(search.frontier_len() <= size * size + 1);
        }
        assert_eq!(search.frontier_len(), 0);
    }
}

#[test]
fn boards_handed_out_are_independent_of_the_search() {
    let mut search = n_castles_backtrack(3);
    let mut first: NCastlesState = search.next().expect("a board");
    first.go_back();
    first.go_back();
    assert_eq!(first.filled(), &vec![2]);
    let second = search.next().expect("a board");
    assert_eq!(second.filled(), &vec![2, 0, 1]);
}
