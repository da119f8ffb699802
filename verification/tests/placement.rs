use tetroku_lib::{Board, Mino, PlaceError, Position, WouldRemove};

const O: bool = false;
const X: bool = true;

fn one() -> Mino {
    Mino::from_rows([
        [X, O, O, O, O],
        [O, O, O, O, O],
        [O, O, O, O, O],
        [O, O, O, O, O],
        [O, O, O, O, O],
    ])
}

fn plus() -> Mino {
    Mino::all()[15]
}

fn bar_of_two() -> Mino {
    Mino::from_rows([
        [X, X, O, O, O],
        [O, O, O, O, O],
        [O, O, O, O, O],
        [O, O, O, O, O],
        [O, O, O, O, O],
    ])
}

fn cells(board: &Board) -> Vec<(i8, i8)> {
    Position::all().into_iter().filter(|p| board.occupied(*p)).map(|p| p.to_xy()).collect()
}

fn full_board() -> Board {
    let mut board = Board::new();
    for position in Position::all() {
        board.set(position, true);
    }
    board
}

#[test]
fn placing_a_single_cell_occupies_that_cell_only() {
    let mut board = Board::new();
    assert!(board.place_at(one(), (4, 4)).is_ok());
    assert!(board.occupied(Position::new(4, 4).unwrap()));
    let mut others = 0;
    for position in Position::all() {
        if position != Position::new(4, 4).unwrap() {
            assert!(!board.occupied(position));
            others += 1;
        }
    }
    assert_eq!(others, 80);
}

#[test]
fn placing_the_plus_occupies_its_five_cells() {
    let mut board = Board::new();
    assert!(board.place_at(plus(), (-1, -1)).is_ok());
    assert_eq!(cells(&board), vec![(1, 0), (0, 1), (1, 1), (2, 1), (1, 2)]);
    assert!(board.place_at(plus(), (5, 5)).is_ok());
    assert_eq!(
        cells(&board),
        vec![(1, 0), (0, 1), (1, 1), (2, 1), (1, 2), (7, 6), (6, 7), (7, 7), (8, 7), (7, 8)]
    );
}

#[test]
fn a_failed_placement_leaves_the_board_as_it_was() {
    let mut board = Board::new();
    board.place_at(plus(), (2, 2)).unwrap();
    let before = cells(&board);
    let text = board.debug_string();

    assert!(matches!(board.place_at(plus(), (3, 2)), Err(PlaceError::Conflicts)));
    assert_eq!(cells(&board), before);
    assert_eq!(board.debug_string(), text);

    assert!(matches!(board.place_at(plus(), (6, 0)), Err(PlaceError::OutOfBounds)));
    assert_eq!(cells(&board), before);
    assert_eq!(board.debug_string(), text);

    assert!(matches!(board.place_at(plus(), (-2, 0)), Err(PlaceError::OutOfBounds)));
    assert!(matches!(board.place_at(plus(), (0, -2)), Err(PlaceError::OutOfBounds)));
    assert!(matches!(board.place_at(plus(), (0, 6)), Err(PlaceError::OutOfBounds)));
    assert!(matches!(board.place_at(plus(), (127, 127)), Err(PlaceError::OutOfBounds)));
    assert!(matches!(board.place_at(plus(), (-128, -128)), Err(PlaceError::OutOfBounds)));
    assert_eq!(cells(&board), before);
}

#[test]
fn a_cell_off_the_board_comes_before_a_conflict() {
    let mut board = Board::new();
    board.set(Position::new(8, 0).unwrap(), true);
    assert!(matches!(board.place_at(bar_of_two(), (8, 0)), Err(PlaceError::OutOfBounds)));
    assert!(matches!(board.place_at(bar_of_two(), (7, 0)), Err(PlaceError::Conflicts)));
    assert_eq!(cells(&board), vec![(8, 0)]);
    assert!(matches!(
        board.find_would_remove(bar_of_two(), (8, 0)),
        Err(PlaceError::OutOfBounds)
    ));
    assert!(matches!(board.find_would_remove(bar_of_two(), (7, 0)), Err(PlaceError::Conflicts)));
}

#[test]
fn an_out_of_bounds_error_becomes_a_placement_error() {
    let board = Board::new();
    let error = board.find_conflicts(one(), (9, 0)).unwrap_err();
    assert!(matches!(PlaceError::from(error), PlaceError::OutOfBounds));
}

#[test]
fn in_bounds_follows_the_filled_cells() {
    assert!(Board::is_in_bounds(plus(), (-1, -1)));
    assert!(Board::is_in_bounds(plus(), (5, 5)));
    assert!(!Board::is_in_bounds(plus(), (-2, -1)));
    assert!(!Board::is_in_bounds(plus(), (-1, -2)));
    assert!(!Board::is_in_bounds(plus(), (6, 5)));
    assert!(!Board::is_in_bounds(plus(), (5, 6)));
    assert!(Board::is_in_bounds(one(), (0, 0)));
    assert!(Board::is_in_bounds(one(), (8, 8)));
    assert!(!Board::is_in_bounds(one(), (9, 8)));
    assert!(!Board::is_in_bounds(one(), (127, 0)));
    assert!(!Board::is_in_bounds(one(), (0, -128)));
    assert!(!Board::is_in_bounds(Mino::from_fn(|_, _| true), (125, 125)));
    assert!(Board::is_in_bounds(Mino::from_fn(|_, _| false), (100, 100)));
}

#[test]
fn mapped_coordinates_follow_the_mino() {
    let mapped = Board::map_mino_coordinates(bar_of_two(), (8, 3));
    assert_eq!(mapped.len(), 2);
    assert_eq!(mapped[0].unwrap(), Position::new(8, 3).unwrap());
    assert!(mapped[1].is_err());
    let mapped = Board::map_mino_coordinates(plus(), (0, 0));
    let found: Vec<(i8, i8)> = mapped.iter().map(|entry| entry.unwrap().to_xy()).collect();
    assert_eq!(found, vec![(2, 1), (1, 2), (2, 2), (3, 2), (2, 3)]);
}

#[test]
fn conflicts_are_the_occupied_cells_under_the_mino() {
    let mut board = Board::new();
    board.place_at(plus(), (0, 0)).unwrap();

    let none = board.find_conflicts(plus(), (3, 0)).unwrap();
    assert!(none.is_empty());

    let some = board.find_conflicts(plus(), (1, 0)).unwrap();
    assert_eq!(cells(&some), vec![(3, 1), (2, 2), (3, 2), (3, 3)].into_iter().filter(|c| {
        board.occupied(Position::new(c.0, c.1).unwrap())
    }).collect::<Vec<_>>());
    assert_eq!(cells(&some), vec![(2, 2), (3, 2)]);

    assert!(board.find_conflicts(plus(), (6, 0)).is_err());
    assert!(board.find_conflicts(plus(), (-2, 0)).is_err());

    let listed = board.iter_conflicts(plus(), (1, 0));
    let listed: Vec<(i8, i8)> = listed.iter().map(|entry| entry.unwrap().to_xy()).collect();
    assert_eq!(listed, vec![(2, 2), (3, 2)]);
    let listed = board.iter_conflicts(bar_of_two(), (8, 0));
    assert_eq!(listed.len(), 1);
    assert!(listed[0].is_err());
    assert!(board.iter_conflicts(plus(), (3, 0)).is_empty());
}

#[test]
fn every_catalog_mino_can_be_placed_on_an_empty_board() {
    let board = Board::new();
    for tile in Mino::all() {
        assert!(board.can_place_anywhere(tile));
        assert!(board.can_place_anywhere(tile.rotate_cw_90()));
        assert!(board.can_place_anywhere(tile.flip_horizontal()));
    }
}

#[test]
fn nothing_can_be_placed_on_a_full_board() {
    let board = full_board();
    assert!(!board.can_place_anywhere(one()));
    for tile in Mino::all() {
        assert!(!board.can_place_anywhere(tile));
    }
}

#[test]
fn a_single_free_cell_takes_a_single_cell_only() {
    for free in [(0, 0), (8, 8), (4, 3), (8, 0)] {
        let mut board = full_board();
        board.set(Position::new(free.0, free.1).unwrap(), false);
        assert!(board.can_place_anywhere(one()));
        assert!(board.can_place_anywhere(Mino::all()[3]));
        assert!(!board.can_place_anywhere(bar_of_two()));
        assert!(!board.can_place_anywhere(plus()));
    }
    let mut board = full_board();
    board.set(Position::new(7, 8).unwrap(), false);
    board.set(Position::new(8, 8).unwrap(), false);
    assert!(board.can_place_anywhere(bar_of_two()));
    assert!(!board.can_place_anywhere(bar_of_two().rotate_cw_90()));
}

#[test]
fn clamping_moves_by_as_little_as_needed() {
    // The plus reaches from 1 to 3 on both axes.
    assert_eq!(Board::clamp_mino_position(plus(), (0, 0)), (0, 0));
    assert_eq!(Board::clamp_mino_position(plus(), (-1, 5)), (-1, 5));
    assert_eq!(Board::clamp_mino_position(plus(), (-2, 0)), (-1, 0));
    assert_eq!(Board::clamp_mino_position(plus(), (-5, -9)), (-1, -1));
    assert_eq!(Board::clamp_mino_position(plus(), (6, 7)), (5, 5));
    assert_eq!(Board::clamp_mino_position(plus(), (5, 6)), (5, 5));
    assert_eq!(Board::clamp_mino_position(plus(), (127, -128)), (5, -1));
    assert_eq!(Board::clamp_mino_position(plus(), (-128, 127)), (-1, 5));
    assert_eq!(Board::clamp_mino_position(one(), (9, -1)), (8, 0));
    let bar = Mino::all()[10];
    assert_eq!(Board::clamp_mino_position(bar, (5, -3)), (4, -2));
    for x in -128..=127 {
        let moved = Board::clamp_mino_position(plus(), (x, 2));
        assert!(Board::is_in_bounds(plus(), moved));
        if Board::is_in_bounds(plus(), (x, 2)) {
            assert_eq!(moved, (x, 2));
        }
    }
}

#[test]
fn the_preview_leaves_the_board_as_it_is() {
    let mut board = Board::new();
    for x in 0..8 {
        board.place_at(one(), (x, 0)).unwrap();
    }
    let before = cells(&board);

    let preview = board.find_would_remove(one(), (8, 0)).unwrap();
    assert_eq!(preview.len(), 1);
    assert!(matches!(preview[0], WouldRemove::Horizontal { y: 0 }));
    assert_eq!(cells(&board), before);

    let preview = board.find_would_remove(one(), (8, 1)).unwrap();
    assert!(preview.is_empty());
    assert_eq!(cells(&board), before);

    assert!(matches!(board.find_would_remove(one(), (0, 0)), Err(PlaceError::Conflicts)));
    assert!(matches!(board.find_would_remove(one(), (9, 0)), Err(PlaceError::OutOfBounds)));
    assert_eq!(cells(&board), before);
}
