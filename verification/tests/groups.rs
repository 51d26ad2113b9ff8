use go_engine::{Game, Pos, Stone};

fn board_of(size: usize, white: &[(i32, i32)], black: &[(i32, i32)]) -> Game {
    let mut game = Game::new(size);
    for &(x, y) in white {
        let i = Pos(x, y).index(size).unwrap();
        game.state.board[i] = Some(Stone::White);
    }
    for &(x, y) in black {
        let i = Pos(x, y).index(size).unwrap();
        game.state.board[i] = Some(Stone::Black);
    }
    assert_eq!(game.state.board.len(), size * size);
    game
}

fn sorted(mut group: Vec<Pos>) -> Vec<(i32, i32)> {
    group.sort_by_key(|p| (p.1, p.0));
    group.iter().map(|p| (p.0, p.1)).collect()
}

#[test]
fn the_board_is_read_cell_by_cell() {
    let game = board_of(3, &[(0, 0), (2, 1)], &[(1, 0), (0, 2)]);
    assert_eq!(game.stone_at(Pos(0, 0)), Some(Stone::White));
    assert_eq!(game.stone_at(Pos(2, 1)), Some(Stone::White));
    assert_eq!(game.stone_at(Pos(1, 0)), Some(Stone::Black));
    assert_eq!(game.stone_at(Pos(0, 2)), Some(Stone::Black));
    assert_eq!(game.stone_at(Pos(1, 2)), None);
    assert_eq!(game.stone_at(Pos(2, 0)), None);
    assert!(game.has_stone_at(Pos(0, 2)));
    assert!(!game.has_stone_at(Pos(2, 0)));
    assert!(!game.has_stone_at(Pos(0, 3)));
}

#[test]
fn an_empty_cell_is_not_surrounded() {
    let game = board_of(3, &[], &[(1, 0), (0, 1)]);
    assert_eq!(game.is_surrounded(Pos(0, 0)), None);
    assert_eq!(game.is_surrounded(Pos(2, 2)), None);
}

#[test]
fn a_position_off_the_board_is_not_surrounded() {
    let game = board_of(3, &[(0, 0)], &[(1, 0), (0, 1)]);
    assert_eq!(game.is_surrounded(Pos(-1, 0)), None);
    assert_eq!(game.is_surrounded(Pos(3, 3)), None);
}

#[test]
fn a_lone_stone_in_the_open_is_not_surrounded() {
    let game = board_of(3, &[(1, 1)], &[]);
    assert_eq!(game.is_surrounded(Pos(1, 1)), None);
}

#[test]
fn a_stone_with_one_liberty_is_not_surrounded() {
    let game = board_of(3, &[(1, 1)], &[(1, 0), (0, 1), (1, 2)]);
    assert_eq!(game.is_surrounded(Pos(1, 1)), None);
}

#[test]
fn a_stone_enclosed_on_four_sides_is_surrounded() {
    let game = board_of(3, &[(1, 1)], &[(1, 0), (0, 1), (1, 2), (2, 1)]);
    assert_eq!(game.is_surrounded(Pos(1, 1)), Some((Stone::White, vec![Pos(1, 1)])));
}

#[test]
fn a_corner_stone_enclosed_on_two_sides_is_surrounded() {
    let game = board_of(3, &[(0, 0)], &[(1, 0), (0, 1)]);
    assert_eq!(game.is_surrounded(Pos(0, 0)), Some((Stone::White, vec![Pos(0, 0)])));
    let other = board_of(3, &[(1, 2), (2, 1)], &[(2, 2)]);
    assert_eq!(other.is_surrounded(Pos(2, 2)), Some((Stone::Black, vec![Pos(2, 2)])));
}

#[test]
fn the_edge_gives_no_liberty() {
    let game = board_of(4, &[(1, 0), (2, 0)], &[(0, 0), (3, 0), (1, 1), (2, 1)]);
    let (color, group) = game.is_surrounded(Pos(1, 0)).unwrap();
    assert_eq!(color, Stone::White);
    assert_eq!(sorted(group), vec![(1, 0), (2, 0)]);
}

#[test]
fn a_surrounded_group_comes_back_whole_from_any_of_its_stones() {
    let white = [(1, 1), (2, 1), (2, 2)];
    let black = [(1, 0), (2, 0), (0, 1), (3, 1), (1, 2), (3, 2), (2, 3)];
    let game = board_of(5, &white, &black);
    for &(x, y) in &white {
        let (color, group) = game.is_surrounded(Pos(x, y)).unwrap();
        assert_eq!(color, Stone::White);
        assert_eq!(group.len(), 3);
        assert_eq!(sorted(group), vec![(1, 1), (2, 1), (2, 2)]);
    }
    for &(x, y) in &black {
        assert_eq!(game.is_surrounded(Pos(x, y)), None);
    }
}

#[test]
fn a_group_is_explored_from_the_given_stone_outwards() {
    let game = board_of(4, &[(0, 0), (1, 0)], &[(2, 0), (0, 1), (1, 1)]);
    assert_eq!(
        game.is_surrounded(Pos(0, 0)),
        Some((Stone::White, vec![Pos(0, 0), Pos(1, 0)]))
    );
    assert_eq!(
        game.is_surrounded(Pos(1, 0)),
        Some((Stone::White, vec![Pos(1, 0), Pos(0, 0)]))
    );
}

#[test]
fn one_liberty_anywhere_frees_the_whole_group() {
    let white = [(1, 1), (2, 1), (2, 2)];
    let black = [(1, 0), (2, 0), (0, 1), (3, 1), (1, 2), (3, 2)];
    let game = board_of(5, &white, &black);
    for &(x, y) in &white {
        assert_eq!(game.is_surrounded(Pos(x, y)), None);
    }
}

#[test]
fn a_ring_without_an_inner_liberty_is_surrounded() {
    let white = [(0, 0), (1, 0), (2, 0), (0, 1), (2, 1), (0, 2), (1, 2), (2, 2)];
    let black = [(1, 1), (3, 0), (3, 1), (3, 2), (0, 3), (1, 3), (2, 3)];
    let game = board_of(4, &white, &black);
    let (color, group) = game.is_surrounded(Pos(0, 0)).unwrap();
    assert_eq!(color, Stone::White);
    assert_eq!(group.len(), 8);
    let mut expected: Vec<(i32, i32)> = white.to_vec();
    expected.sort_by_key(|p| (p.1, p.0));
    assert_eq!(sorted(group), expected);
    assert_eq!(game.is_surrounded(Pos(1, 1)), Some((Stone::Black, vec![Pos(1, 1)])));
}

#[test]
fn a_full_board_of_one_colour_is_surrounded() {
    let all: Vec<(i32, i32)> = (0..3).flat_map(|y| (0..3).map(move |x| (x, y))).collect();
    let game = board_of(3, &all, &[]);
    let (color, group) = game.is_surrounded(Pos(1, 1)).unwrap();
    assert_eq!(color, Stone::White);
    assert_eq!(sorted(group), all);
}

#[test]
fn groups_of_different_colours_are_told_apart() {
    let game = board_of(3, &[(0, 0), (1, 0), (2, 0)], &[(0, 1), (1, 1), (2, 1)]);
    let (color, group) = game.is_surrounded(Pos(1, 0)).unwrap();
    assert_eq!(color, Stone::White);
    assert_eq!(sorted(group), vec![(0, 0), (1, 0), (2, 0)]);
    assert_eq!(game.is_surrounded(Pos(1, 1)), None);
}

#[test]
fn diagonal_stones_are_not_connected() {
    let game = board_of(3, &[(0, 0), (1, 1)], &[(1, 0), (0, 1)]);
    assert_eq!(game.is_surrounded(Pos(0, 0)), Some((Stone::White, vec![Pos(0, 0)])));
    assert_eq!(game.is_surrounded(Pos(1, 1)), None);
}
