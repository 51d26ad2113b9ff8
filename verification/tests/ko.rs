use go_engine::{Game, Pos, Stone};

fn put(game: &mut Game, color: Stone, x: i32, y: i32) {
    game.turn = color;
    game.try_place_stone(Pos(x, y));
}

/// Black to move; a black stone at (2, 1) captures the white stone at (1, 1),
/// and a white stone at (1, 1) would then capture it back.
fn ko_shape() -> Game {
    let mut game = Game::new(5);
    put(&mut game, Stone::Black, 1, 0);
    put(&mut game, Stone::Black, 0, 1);
    put(&mut game, Stone::Black, 1, 2);
    put(&mut game, Stone::White, 2, 0);
    put(&mut game, Stone::White, 3, 1);
    put(&mut game, Stone::White, 2, 2);
    put(&mut game, Stone::White, 1, 1);
    assert_eq!(game.turn, Stone::Black);
    game
}

#[test]
fn the_first_capture_in_a_ko_is_accepted() {
    let mut game = ko_shape();
    game.try_place_stone(Pos(2, 1));
    assert_eq!(game.stone_at(Pos(2, 1)), Some(Stone::Black));
    assert_eq!(game.stone_at(Pos(1, 1)), None);
    assert_eq!(game.state.captures.get(Stone::Black), 1);
    assert_eq!(game.state.captures.get(Stone::White), 0);
    assert_eq!(game.turn, Stone::White);
    assert_eq!(game.history.len(), 8);
}

#[test]
fn the_immediate_recapture_is_rejected() {
    let mut game = ko_shape();
    game.try_place_stone(Pos(2, 1));
    let before = game.clone();
    game.try_place_stone(Pos(1, 1));
    assert!(game.state == before.state);
    assert_eq!(game.stone_at(Pos(1, 1)), None);
    assert_eq!(game.stone_at(Pos(2, 1)), Some(Stone::Black));
    assert_eq!(game.state.captures.get(Stone::White), 0);
    assert_eq!(game.state.captures.get(Stone::Black), 1);
    assert_eq!(game.turn, Stone::White);
    assert_eq!(game.history.len(), before.history.len());
    assert!(game.is_well_formed());
}

#[test]
fn a_rejected_recapture_stays_rejected_when_tried_again() {
    let mut game = ko_shape();
    game.try_place_stone(Pos(2, 1));
    let before = game.clone();
    game.try_place_stone(Pos(1, 1));
    game.try_place_stone(Pos(1, 1));
    game.try_place_stone(Pos(1, 1));
    assert!(game.state == before.state);
    assert_eq!(game.turn, Stone::White);
    assert_eq!(game.history.len(), before.history.len());
}

#[test]
fn the_recapture_is_accepted_after_a_move_elsewhere() {
    let mut game = ko_shape();
    game.try_place_stone(Pos(2, 1));
    game.try_place_stone(Pos(1, 1));
    assert_eq!(game.turn, Stone::White);
    game.try_place_stone(Pos(4, 4));
    assert_eq!(game.turn, Stone::Black);
    game.try_place_stone(Pos(0, 4));
    assert_eq!(game.turn, Stone::White);
    game.try_place_stone(Pos(1, 1));
    assert_eq!(game.stone_at(Pos(1, 1)), Some(Stone::White));
    assert_eq!(game.stone_at(Pos(2, 1)), None);
    assert_eq!(game.state.captures.get(Stone::White), 1);
    assert_eq!(game.state.captures.get(Stone::Black), 1);
    assert_eq!(game.turn, Stone::Black);
}

#[test]
fn the_ko_then_binds_the_other_side() {
    let mut game = ko_shape();
    game.try_place_stone(Pos(2, 1));
    game.try_place_stone(Pos(4, 4));
    game.try_place_stone(Pos(0, 4));
    game.try_place_stone(Pos(1, 1));
    assert_eq!(game.turn, Stone::Black);
    let before = game.clone();
    game.try_place_stone(Pos(2, 1));
    assert!(game.state == before.state);
    assert_eq!(game.turn, Stone::Black);
    assert_eq!(game.stone_at(Pos(2, 1)), None);
    assert_eq!(game.stone_at(Pos(1, 1)), Some(Stone::White));
    assert_eq!(game.history.len(), before.history.len());
}

#[test]
fn another_move_is_open_while_the_ko_is_closed() {
    let mut game = ko_shape();
    game.try_place_stone(Pos(2, 1));
    game.try_place_stone(Pos(1, 1));
    assert_eq!(game.turn, Stone::White);
    game.try_place_stone(Pos(3, 3));
    assert_eq!(game.stone_at(Pos(3, 3)), Some(Stone::White));
    assert_eq!(game.turn, Stone::Black);
}

#[test]
fn a_capture_of_two_stones_may_be_answered_at_once() {
    let mut game = Game::new(5);
    put(&mut game, Stone::Black, 1, 0);
    put(&mut game, Stone::Black, 2, 0);
    put(&mut game, Stone::Black, 0, 1);
    put(&mut game, Stone::Black, 1, 2);
    put(&mut game, Stone::Black, 2, 2);
    put(&mut game, Stone::White, 3, 0);
    put(&mut game, Stone::White, 4, 1);
    put(&mut game, Stone::White, 3, 2);
    put(&mut game, Stone::White, 1, 1);
    put(&mut game, Stone::White, 2, 1);
    put(&mut game, Stone::Black, 3, 1);
    assert_eq!(game.stone_at(Pos(1, 1)), None);
    assert_eq!(game.stone_at(Pos(2, 1)), None);
    assert_eq!(game.state.captures.get(Stone::Black), 2);
    assert_eq!(game.turn, Stone::White);
    game.try_place_stone(Pos(2, 1));
    assert_eq!(game.stone_at(Pos(2, 1)), Some(Stone::White));
    assert_eq!(game.stone_at(Pos(3, 1)), None);
    assert_eq!(game.state.captures.get(Stone::White), 1);
    assert_eq!(game.turn, Stone::Black);
}

#[test]
fn suicide_that_repeats_the_earlier_board_is_rejected() {
    let mut game = Game::new(3);
    put(&mut game, Stone::Black, 1, 0);
    put(&mut game, Stone::Black, 0, 1);
    put(&mut game, Stone::White, 0, 0);
    assert_eq!(game.stone_at(Pos(0, 0)), None);
    assert_eq!(game.state.captures.get(Stone::Black), 1);
    assert_eq!(game.turn, Stone::Black);
    let before = game.clone();
    put(&mut game, Stone::White, 0, 0);
    assert!(game.state == before.state);
    assert_eq!(game.state.captures.get(Stone::Black), 1);
    assert_eq!(game.turn, Stone::White);
    assert_eq!(game.history.len(), before.history.len());
}
