use go_engine::{Pos, Stone};

#[test]
fn valid_inside_the_board() {
    assert!(Pos(0, 0).valid(3));
    assert!(Pos(2, 2).valid(3));
    assert!(Pos(2, 0).valid(3));
    assert!(Pos(0, 2).valid(3));
    assert!(Pos(12, 12).valid(13));
}

#[test]
fn valid_rejects_coordinates_at_or_beyond_the_size() {
    assert!(!Pos(3, 0).valid(3));
    assert!(!Pos(0, 3).valid(3));
    assert!(!Pos(3, 3).valid(3));
    assert!(!Pos(13, 4).valid(13));
}

#[test]
fn valid_rejects_negative_coordinates() {
    assert!(!Pos(-1, 0).valid(3));
    assert!(!Pos(0, -1).valid(3));
    assert!(!Pos(-1, -1).valid(3));
    assert!(!Pos(i32::MIN, 0).valid(3));
}

#[test]
fn valid_agrees_with_the_bounds_on_every_cell_around_a_small_board() {
    let size: usize = 4;
    for x in -2..7 {
        for y in -2..7 {
            let expected = 0 <= x && x < 4 && 0 <= y && y < 4;
            assert_eq!(Pos(x, y).valid(size), expected);
        }
    }
}

#[test]
fn nothing_is_valid_on_a_board_of_size_zero() {
    assert!(!Pos(0, 0).valid(0));
    assert_eq!(Pos(0, 0).index(0), None);
    assert_eq!(Pos(0, 0).neighbors(0), vec![]);
}

#[test]
fn and_valid_hands_back_a_valid_position() {
    assert_eq!(Pos(1, 2).and_valid(3), Some(Pos(1, 2)));
    assert_eq!(Pos(0, 0).and_valid(1), Some(Pos(0, 0)));
}

#[test]
fn and_valid_hands_back_nothing_for_an_invalid_position() {
    assert_eq!(Pos(3, 2).and_valid(3), None);
    assert_eq!(Pos(-1, 2).and_valid(3), None);
    assert_eq!(Pos(1, 1).and_valid(1), None);
}

#[test]
fn index_is_row_times_size_plus_column() {
    assert_eq!(Pos(0, 0).index(3), Some(0));
    assert_eq!(Pos(2, 0).index(3), Some(2));
    assert_eq!(Pos(0, 1).index(3), Some(3));
    assert_eq!(Pos(2, 1).index(3), Some(5));
    assert_eq!(Pos(2, 2).index(3), Some(8));
    assert_eq!(Pos(4, 7).index(13), Some(95));
    assert_eq!(Pos(12, 12).index(13), Some(168));
}

#[test]
fn index_gives_nothing_for_an_invalid_position() {
    assert_eq!(Pos(3, 0).index(3), None);
    assert_eq!(Pos(0, 3).index(3), None);
    assert_eq!(Pos(-1, 1).index(3), None);
    assert_eq!(Pos(1, -1).index(3), None);
}

#[test]
fn index_is_distinct_for_distinct_cells() {
    let size: usize = 5;
    let mut seen = vec![false; 25];
    for y in 0..5 {
        for x in 0..5 {
            let i = Pos(x, y).index(size).unwrap();
            assert!(i < 25);
            assert!(!seen[i]);
            seen[i] = true;
        }
    }
}

#[test]
fn neighbors_of_a_centre_cell_come_left_right_up_down() {
    assert_eq!(
        Pos(1, 1).neighbors(3),
        vec![Pos(0, 1), Pos(2, 1), Pos(1, 0), Pos(1, 2)]
    );
}

#[test]
fn neighbors_of_a_corner_are_two() {
    assert_eq!(Pos(0, 0).neighbors(3), vec![Pos(1, 0), Pos(0, 1)]);
    assert_eq!(Pos(2, 2).neighbors(3), vec![Pos(1, 2), Pos(2, 1)]);
    assert_eq!(Pos(2, 0).neighbors(3), vec![Pos(1, 0), Pos(2, 1)]);
    assert_eq!(Pos(0, 2).neighbors(3), vec![Pos(1, 2), Pos(0, 1)]);
}

#[test]
fn neighbors_of_an_edge_cell_are_three() {
    assert_eq!(Pos(1, 0).neighbors(3), vec![Pos(0, 0), Pos(2, 0), Pos(1, 1)]);
    assert_eq!(Pos(0, 1).neighbors(3), vec![Pos(1, 1), Pos(0, 0), Pos(0, 2)]);
}

#[test]
fn neighbors_of_the_only_cell_are_none() {
    assert_eq!(Pos(0, 0).neighbors(1), vec![]);
}

#[test]
fn neighbors_of_a_cell_just_off_the_board_reach_back_onto_it() {
    assert_eq!(Pos(-1, 0).neighbors(3), vec![Pos(0, 0)]);
    assert_eq!(Pos(3, 1).neighbors(3), vec![Pos(2, 1)]);
    assert_eq!(Pos(1, 3).neighbors(3), vec![Pos(1, 2)]);
    assert_eq!(Pos(5, 5).neighbors(3), vec![]);
}

#[test]
fn neighbors_at_the_limits_of_the_coordinate_type() {
    assert_eq!(Pos(i32::MIN, i32::MIN).neighbors(3), vec![]);
    assert_eq!(Pos(i32::MAX, i32::MAX).neighbors(3), vec![]);
    assert_eq!(Pos(i32::MAX, 0).neighbors(3), vec![]);
}

#[test]
fn neighbors_are_all_valid_and_adjacent() {
    let size: usize = 4;
    for x in -1..5 {
        for y in -1..5 {
            for n in Pos(x, y).neighbors(size) {
                assert!(n.valid(size));
                assert_eq!((n.0 - x).abs() + (n.1 - y).abs(), 1);
            }
        }
    }
}

#[test]
fn position_from_a_pair_of_coordinates() {
    assert_eq!(Pos::from((3, 4)), Pos(3, 4));
    assert_eq!(Pos::from((0, 12)), Pos(0, 12));
    let p: Pos = (7, 2).into();
    assert_eq!(p, Pos(7, 2));
}

#[test]
fn positions_compare_by_value() {
    assert_eq!(Pos(1, 2), Pos(1, 2));
    assert_ne!(Pos(1, 2), Pos(2, 1));
    let p = Pos(5, 6);
    let q = p;
    assert_eq!(p, q);
}

#[test]
fn positions_are_ordered_by_column_then_row() {
    assert!(Pos(0, 5) < Pos(1, 0));
    assert!(Pos(1, 0) < Pos(1, 1));
    assert!(Pos(-1, 9) < Pos(0, 0));
    assert!(Pos(2, 2) <= Pos(2, 2));
    let mut list = vec![Pos(2, 0), Pos(0, 2), Pos(1, 1), Pos(0, 0)];
    list.sort();
    assert_eq!(list, vec![Pos(0, 0), Pos(0, 2), Pos(1, 1), Pos(2, 0)]);
}

#[test]
fn opponent_swaps_the_colours() {
    assert_eq!(Stone::White.opponent(), Stone::Black);
    assert_eq!(Stone::Black.opponent(), Stone::White);
    assert_eq!(Stone::White.opponent().opponent(), Stone::White);
}

#[test]
fn negation_is_the_opponent() {
    assert_eq!(-Stone::White, Stone::Black);
    assert_eq!(-Stone::Black, Stone::White);
    assert_eq!(-(-Stone::Black), Stone::Black);
}
