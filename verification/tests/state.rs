use castles::NCastlesState;

fn board(size: usize, columns: &[isize]) -> NCastlesState {
    let mut state = NCastlesState::new(size);
    for &column in columns {
        state.go_walk(column);
    }
    state
}

#[test]
fn new_board_is_empty_with_every_column_free() {
    let state = NCastlesState::new(4);
    assert_eq!(state.size(), 4);
    assert_eq!(state.filled(), &Vec::<isize>::new());
    assert_eq!(state.unused_columns(), vec![0, 1, 2, 3]);
    assert!(!state.full_filled());
    assert!(!state.is_solution());
}

#[test]
fn board_of_size_zero_is_full_and_solved() {
    let state = NCastlesState::new(0);
    assert_eq!(state.size(), 0);
    assert!(state.filled().is_empty());
    assert!(state.unused_columns().is_empty());
    assert!(state.full_filled());
    assert!(state.is_solution());
}

#[test]
fn go_walk_appends_the_column_and_takes_it_from_the_free_ones() {
    let mut state = NCastlesState::new(4);
    state.go_walk(2);
    assert_eq!(state.filled(), &vec![2]);
    assert_eq!(state.unused_columns(), vec![0, 1, 3]);
    state.go_walk(0);
    assert_eq!(state.filled(), &vec![2, 0]);
    assert_eq!(state.unused_columns(), vec![1, 3]);
    assert_eq!(state.size(), 4);
}

#[test]
fn go_back_undoes_go_walk() {
    let mut state = board(5, &[3, 1]);
    let filled_before = state.filled().clone();
    let unused_before = state.unused_columns();
    state.go_walk(4);
    assert_eq!(state.filled(), &vec![3, 1, 4]);
    assert_eq!(state.unused_columns(), vec![0, 2]);
    state.go_back();
    assert_eq!(state.filled(), &filled_before);
    assert_eq!(state.unused_columns(), unused_before);
}

#[test]
fn go_back_undoes_go_walk_for_every_free_column() {
    let mut state = board(6, &[5, 0, 2]);
    for column in state.unused_columns() {
        let filled_before = state.filled().clone();
        let unused_before = state.unused_columns();
        state.go_walk(column);
        assert_eq!(state.filled().len(), filled_before.len() + 1);
        assert_eq!(state.unused_columns().len(), unused_before.len() - 1);
        state.go_back();
        assert_eq!(state.filled(), &filled_before);
        assert_eq!(state.unused_columns(), unused_before);
    }
}

#[test]
fn go_walk_undoes_go_back() {
    let mut state = board(5, &[3, 1, 4]);
    let filled_before = state.filled().clone();
    let unused_before = state.unused_columns();
    state.go_back();
    assert_eq!(state.filled(), &vec![3, 1]);
    assert_eq!(state.unused_columns(), vec![0, 2, 4]);
    state.go_walk(4);
    assert_eq!(state.filled(), &filled_before);
    assert_eq!(state.unused_columns(), unused_before);
}

#[test]
fn go_back_frees_the_last_row_only() {
    let mut state = board(3, &[1, 2]);
    state.go_back();
    assert_eq!(state.filled(), &vec![1]);
    assert_eq!(state.unused_columns(), vec![0, 2]);
    state.go_back();
    assert_eq!(state.filled(), &Vec::<isize>::new());
    assert_eq!(state.unused_columns(), vec![0, 1, 2]);
}

#[test]
fn go_back_on_the_empty_board_changes_nothing() {
    let mut state = NCastlesState::new(3);
    state.go_back();
    assert_eq!(state.size(), 3);
    assert!(state.filled().is_empty());
    assert_eq!(state.unused_columns(), vec![0, 1, 2]);
    let mut none = NCastlesState::new(0);
    none.go_back();
    assert!(none.filled().is_empty());
    assert!(none.unused_columns().is_empty());
}

#[test]
fn valid_at_rejects_exactly_the_used_columns() {
    let state = board(4, &[1, 3]);
    assert!(state.valid_at(0));
    assert!(!state.valid_at(1));
    assert!(state.valid_at(2));
    assert!(!state.valid_at(3));
}

#[test]
fn valid_at_accepts_any_column_on_the_empty_board() {
    let state = NCastlesState::new(2);
    assert!(state.valid_at(0));
    assert!(state.valid_at(1));
    assert!(state.valid_at(7));
    assert!(state.valid_at(-1));
}

#[test]
fn full_filled_holds_once_no_column_is_free() {
    let mut state = NCastlesState::new(2);
    assert!(!state.full_filled());
    state.go_walk(1);
    assert!(!state.full_filled());
    state.go_walk(0);
    assert!(state.full_filled());
    state.go_back();
    assert!(!state.full_filled());
}

#[test]
fn is_solution_holds_once_every_column_is_used() {
    let mut state = NCastlesState::new(3);
    assert!(!state.is_solution());
    state.go_walk(2);
    assert!(!state.is_solution());
    state.go_walk(0);
    assert!(!state.is_solution());
    state.go_walk(1);
    assert!(state.is_solution());
    assert_eq!(state.filled(), &vec![2, 0, 1]);
}

#[test]
fn is_solution_agrees_with_full_filled() {
    let mut state = NCastlesState::new(4);
    for column in [3, 1, 0, 2] {
        assert_eq!(state.is_solution(), state.full_filled());
        state.go_walk(column);
    }
    assert!(state.is_solution());
    assert!(state.full_filled());
}

#[test]
fn filled_rows_and_free_columns_count_the_board() {
    let mut state = NCastlesState::new(5);
    for column in [4, 2, 0, 1, 3] {
        assert_eq!(state.filled().len() + state.unused_columns().len(), 5);
        state.go_walk(column);
    }
    assert_eq!(state.filled().len(), 5);
    assert!(state.unused_columns().is_empty());
}

#[test]
fn unused_columns_come_lowest_first() {
    let state = board(7, &[6, 0, 3]);
    assert_eq!(state.unused_columns(), vec![1, 2, 4, 5]);
}

#[test]
fn unused_columns_is_a_snapshot() {
    let mut state = board(3, &[1]);
    let snapshot = state.unused_columns();
    state.go_walk(0);
    assert_eq!(snapshot, vec![0, 2]);
    assert_eq!(state.unused_columns(), vec![2]);
}

#[test]
fn a_clone_does_not_follow_its_source() {
    let mut state = board(4, &[2]);
    let copy = state.clone();
    state.go_walk(3);
    assert_eq!(copy.filled(), &vec![2]);
    assert_eq!(copy.unused_columns(), vec![0, 1, 3]);
    assert_eq!(copy.size(), 4);
    assert_eq!(state.filled(), &vec![2, 3]);
    assert_eq!(state.unused_columns(), vec![0, 1]);
}

#[test]
fn debug_output_names_the_type() {
    let state = board(2, &[1]);
    let text = format!("{:?}", state);
    assert!(text.contains("NCastlesState"));
}
