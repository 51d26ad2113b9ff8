use go_engine::{Captures, GameState, Stone};

#[test]
fn a_new_tally_holds_zero_for_both_colours() {
    let tally = Captures::new();
    assert_eq!(tally.get(Stone::White), 0);
    assert_eq!(tally.get(Stone::Black), 0);
}

#[test]
fn credit_adds_to_one_colour_only() {
    let mut tally = Captures::new();
    tally.credit(Stone::Black, 3);
    assert_eq!(tally.get(Stone::Black), 3);
    assert_eq!(tally.get(Stone::White), 0);
    tally.credit(Stone::White, 2);
    assert_eq!(tally.get(Stone::Black), 3);
    assert_eq!(tally.get(Stone::White), 2);
    tally.credit(Stone::Black, 4);
    assert_eq!(tally.get(Stone::Black), 7);
    assert_eq!(tally.get(Stone::White), 2);
}

#[test]
fn credit_of_nothing_changes_nothing() {
    let mut tally = Captures::new();
    tally.credit(Stone::White, 5);
    tally.credit(Stone::White, 0);
    tally.credit(Stone::Black, 0);
    assert_eq!(tally.get(Stone::White), 5);
    assert_eq!(tally.get(Stone::Black), 0);
}

#[test]
fn a_cloned_tally_has_the_same_counts_and_a_life_of_its_own() {
    let mut tally = Captures::new();
    tally.credit(Stone::White, 1);
    tally.credit(Stone::Black, 6);
    let mut copy = tally.clone();
    assert_eq!(copy.get(Stone::White), 1);
    assert_eq!(copy.get(Stone::Black), 6);
    copy.credit(Stone::White, 10);
    assert_eq!(copy.get(Stone::White), 11);
    assert_eq!(tally.get(Stone::White), 1);
}

#[test]
fn a_new_state_is_an_empty_board_with_nothing_captured() {
    let state = GameState::new(3);
    assert_eq!(state.board.len(), 9);
    assert!(state.board.iter().all(|cell| cell.is_none()));
    assert_eq!(state.captures.get(Stone::White), 0);
    assert_eq!(state.captures.get(Stone::Black), 0);
}

#[test]
fn a_new_state_of_size_zero_has_no_cells() {
    let state = GameState::new(0);
    assert_eq!(state.board.len(), 0);
}

#[test]
fn a_new_state_of_tournament_size_has_361_cells() {
    let state = GameState::new(19);
    assert_eq!(state.board.len(), 361);
}

#[test]
fn states_are_equal_when_cells_and_tallies_are() {
    let a = GameState::new(3);
    let b = GameState::new(3);
    assert!(a == b);
    let c = a.clone();
    assert!(a == c);
}

#[test]
fn states_differ_by_a_cell() {
    let a = GameState::new(3);
    let mut b = GameState::new(3);
    b.board[4] = Some(Stone::White);
    assert!(a != b);
    let mut c = GameState::new(3);
    c.board[4] = Some(Stone::Black);
    assert!(b != c);
    c.board[4] = Some(Stone::White);
    assert!(b == c);
}

#[test]
fn states_differ_by_a_tally() {
    let a = GameState::new(3);
    let mut b = GameState::new(3);
    b.captures.credit(Stone::Black, 1);
    assert!(a != b);
    let mut c = GameState::new(3);
    c.captures.credit(Stone::White, 1);
    assert!(b != c);
}

#[test]
fn states_of_different_sizes_differ() {
    assert!(GameState::new(3) != GameState::new(4));
}

#[test]
fn a_cloned_state_has_a_life_of_its_own() {
    let a = GameState::new(2);
    let mut b = a.clone();
    b.board[0] = Some(Stone::Black);
    b.captures.credit(Stone::White, 2);
    assert_eq!(a.board[0], None);
    assert_eq!(a.captures.get(Stone::White), 0);
    assert_eq!(b.board[0], Some(Stone::Black));
    assert_eq!(b.captures.get(Stone::White), 2);
}
