use tetroku_lib::util::grid_fmt;
use tetroku_lib::{
    min_bytes_for_bits, Board, Position, SquareIndex, WouldRemove, BOARD_SIZE,
};

#[test]
fn position_round_trips() {
    for y in 0..BOARD_SIZE {
        for x in 0..BOARD_SIZE {
            let position = Position::new(x, y).unwrap();
            assert_eq!(position.x(), x);
            assert_eq!(position.y(), y);
            assert_eq!(position.to_xy(), (x, y));
            assert_eq!(Position::new_unchecked(x, y), position);
        }
    }
}

#[test]
fn position_is_none_outside_the_board() {
    assert_eq!(Position::new(-1, 0), None);
    assert_eq!(Position::new(0, -1), None);
    assert_eq!(Position::new(9, 0), None);
    assert_eq!(Position::new(0, 9), None);
    assert_eq!(Position::new(127, 127), None);
    assert_eq!(Position::new(-128, -128), None);
    assert!(Position::new(8, 8).is_some());
    assert!(Position::new(0, 0).is_some());
}

#[test]
fn all_positions_come_row_by_row() {
    let all = Position::all();
    assert_eq!(all.len(), 81);
    for (i, position) in all.iter().enumerate() {
        assert_eq!(position.to_xy(), ((i % 9) as i8, (i / 9) as i8));
    }
    assert_eq!(all[0], Position::new(0, 0).unwrap());
    assert_eq!(all[9], Position::new(0, 1).unwrap());
    assert_eq!(all[80], Position::new(8, 8).unwrap());
}

#[test]
fn a_new_board_is_empty() {
    let board = Board::new();
    assert!(board.is_empty());
    assert!(Board::default().is_empty());
    for position in Position::all() {
        assert!(!board.occupied(position));
    }
}

#[test]
fn set_changes_one_cell_and_no_other() {
    for target in Position::all() {
        let mut board = Board::new();
        board.set(target, true);
        assert!(!board.is_empty());
        for position in Position::all() {
            assert_eq!(board.occupied(position), position == target);
        }
        board.set(target, true);
        assert!(board.occupied(target));
        board.set(target, false);
        assert!(board.is_empty());
        board.set(target, false);
        assert!(board.is_empty());
    }
}

#[test]
fn clearing_a_cell_leaves_the_others() {
    let mut board = Board::new();
    for position in Position::all() {
        board.set(position, true);
    }
    let target = Position::new(8, 8).unwrap();
    board.set(target, false);
    for position in Position::all() {
        assert_eq!(board.occupied(position), position != target);
    }
}

#[test]
fn bytes_for_bits() {
    assert_eq!(min_bytes_for_bits(0), 0);
    assert_eq!(min_bytes_for_bits(1), 1);
    assert_eq!(min_bytes_for_bits(8), 1);
    assert_eq!(min_bytes_for_bits(9), 2);
    assert_eq!(min_bytes_for_bits(25), 4);
    assert_eq!(min_bytes_for_bits(81), 11);
    assert_eq!(min_bytes_for_bits(usize::MAX), usize::MAX / 8 + 1);
}

#[test]
fn boxes_tile_the_board() {
    let boxes = SquareIndex::all();
    assert_eq!(boxes.len(), 9);
    let mut seen = Board::new();
    for (n, index) in boxes.iter().enumerate() {
        let corner = ((n % 3) as i8 * 3, (n / 3) as i8 * 3);
        assert_eq!(index.top_left().to_xy(), corner);
        let within = index.all_within();
        assert_eq!(within.len(), 9);
        for (k, position) in within.iter().enumerate() {
            assert_eq!(
                position.to_xy(),
                (corner.0 + (k % 3) as i8, corner.1 + (k / 3) as i8)
            );
            assert!(!seen.occupied(*position));
            seen.set(*position, true);
        }
    }
    for position in Position::all() {
        assert!(seen.occupied(position));
    }
}

#[test]
fn the_middle_box_starts_at_three_three() {
    let middle = SquareIndex::all()[4];
    assert_eq!(middle.top_left(), Position::new(3, 3).unwrap());
    let cells: Vec<(i8, i8)> = middle.all_within().iter().map(|p| p.to_xy()).collect();
    assert_eq!(
        cells,
        vec![(3, 3), (4, 3), (5, 3), (3, 4), (4, 4), (5, 4), (3, 5), (4, 5), (5, 5)]
    );
}

#[test]
fn units_list_their_nine_cells_in_order() {
    let row: Vec<(i8, i8)> =
        WouldRemove::Horizontal { y: 7 }.iter().iter().map(|p| p.to_xy()).collect();
    assert_eq!(
        row,
        vec![(0, 7), (1, 7), (2, 7), (3, 7), (4, 7), (5, 7), (6, 7), (7, 7), (8, 7)]
    );
    let column: Vec<(i8, i8)> =
        WouldRemove::Vertical { x: 2 }.iter().iter().map(|p| p.to_xy()).collect();
    assert_eq!(
        column,
        vec![(2, 0), (2, 1), (2, 2), (2, 3), (2, 4), (2, 5), (2, 6), (2, 7), (2, 8)]
    );
    let last = SquareIndex::all()[8];
    let square: Vec<(i8, i8)> =
        WouldRemove::Square { index: last }.iter().iter().map(|p| p.to_xy()).collect();
    assert_eq!(
        square,
        vec![(6, 6), (7, 6), (8, 6), (6, 7), (7, 7), (8, 7), (6, 8), (7, 8), (8, 8)]
    );
}

#[test]
fn grid_text_of_small_grids() {
    assert_eq!(grid_fmt("Grid", 0, 3, |_, _| true), "Grid");
    assert_eq!(grid_fmt("Grid", 1, 0, |_, _| true), "Grid([])");
    assert_eq!(grid_fmt("Grid", 1, 1, |_, _| true), "Grid(['1'])");
    assert_eq!(grid_fmt("", 1, 2, |x, _| x == 1), "(['0', '1'],)");
    assert_eq!(grid_fmt("", 2, 1, |_, y| y == 1), "(['0'], ['1'])");
    assert_eq!(
        grid_fmt("Grid", 2, 3, |x, y| x == y),
        "Grid(['1', '0', '0'], ['0', '1', '0'])"
    );
}

#[test]
fn debug_string_shows_the_rows_of_a_board() {
    let mut board = Board::new();
    board.set(Position::new(1, 0).unwrap(), true);
    board.set(Position::new(8, 8).unwrap(), true);
    let empty_row = "['0', '0', '0', '0', '0', '0', '0', '0', '0']";
    let expected = format!(
        "Board(['0', '1', '0', '0', '0', '0', '0', '0', '0'], {0}, {0}, {0}, {0}, {0}, {0}, {0}, \
         ['0', '0', '0', '0', '0', '0', '0', '0', '1'])",
        empty_row
    );
    assert_eq!(board.debug_string(), expected);
}
