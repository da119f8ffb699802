use tetroku_lib::{Board, Mino, Position, SquareIndex, WouldRemove};

const O: bool = false;
const X: bool = true;

fn one() -> Mino {
    Mino::from_rows([
        [X, O, O, O, O],
        [O, O, O, O, O],
        [O, O, O, O, O],
        [O, O, O, O, O],
        [O, O, O, O, O],
    ])
}

fn cells(board: &Board) -> Vec<(i8, i8)> {
    Position::all().into_iter().filter(|p| board.occupied(*p)).map(|p| p.to_xy()).collect()
}

#[test]
fn a_full_row_is_removed_and_nothing_else() {
    let mut board = Board::new();
    board.place_at(one(), (3, 5)).unwrap();
    board.place_at(one(), (0, 1)).unwrap();
    for x in 0..9 {
        board.place_at(one(), (x, 0)).unwrap();
    }
    assert_eq!(board.remove_filled(), 1);
    for x in 0..9 {
        assert!(!board.occupied(Position::new(x, 0).unwrap()));
    }
    assert_eq!(cells(&board), vec![(0, 1), (3, 5)]);
    assert_eq!(board.remove_filled(), 0);
    assert_eq!(cells(&board), vec![(0, 1), (3, 5)]);
}

#[test]
fn a_full_row_alone_leaves_an_empty_board() {
    let mut board = Board::new();
    for x in 0..9 {
        board.place_at(one(), (x, 0)).unwrap();
    }
    assert_eq!(board.remove_filled(), 1);
    assert!(board.is_empty());
}

#[test]
fn a_full_box_is_found_as_that_box_only() {
    for n in 0..9 {
        let index = SquareIndex::all()[n];
        let mut board = Board::new();
        for position in index.all_within() {
            board.place_at(one(), position.to_xy()).unwrap();
        }
        let filled = board.find_filled();
        assert_eq!(filled.len(), 1);
        match filled[0] {
            WouldRemove::Square { index: found } => assert_eq!(found, index),
            _ => panic!("a row or a column was found"),
        }
        assert_eq!(board.remove_filled(), 1);
        assert!(board.is_empty());
    }
}

#[test]
fn nothing_is_full_on_an_empty_board() {
    let mut board = Board::new();
    assert!(board.find_filled().is_empty());
    assert_eq!(board.remove_filled(), 0);
    assert!(board.is_empty());
}

#[test]
fn eight_cells_of_a_row_are_not_a_full_row() {
    let mut board = Board::new();
    for x in 0..8 {
        board.set(Position::new(x, 4).unwrap(), true);
    }
    assert!(board.find_filled().is_empty());
    assert_eq!(board.remove_filled(), 0);
    assert_eq!(cells(&board).len(), 8);
}

#[test]
fn units_that_overlap_are_counted_each_and_cleared_together() {
    let mut board = Board::new();
    for x in 0..9 {
        board.set(Position::new(x, 1).unwrap(), true);
    }
    for y in 0..9 {
        board.set(Position::new(7, y).unwrap(), true);
    }
    for position in SquareIndex::all()[2].all_within() {
        board.set(position, true);
    }
    board.set(Position::new(0, 8).unwrap(), true);

    let filled = board.find_filled();
    assert_eq!(filled.len(), 3);
    assert!(matches!(filled[0], WouldRemove::Horizontal { y: 1 }));
    assert!(matches!(filled[1], WouldRemove::Vertical { x: 7 }));
    match filled[2] {
        WouldRemove::Square { index } => assert_eq!(index, SquareIndex::all()[2]),
        _ => panic!("the box was not found last"),
    }

    assert_eq!(board.remove_filled(), 3);
    assert_eq!(cells(&board), vec![(0, 8)]);
}

#[test]
fn a_full_board_has_twenty_seven_full_units() {
    let mut board = Board::new();
    for position in Position::all() {
        board.set(position, true);
    }
    let filled = board.find_filled();
    assert_eq!(filled.len(), 27);
    for (rank, unit) in filled.iter().enumerate() {
        match *unit {
            WouldRemove::Horizontal { y } => assert_eq!(y as usize, rank),
            WouldRemove::Vertical { x } => assert_eq!(x as usize + 9, rank),
            WouldRemove::Square { index } => assert_eq!(index, SquareIndex::all()[rank - 18]),
        }
    }
    assert_eq!(board.remove_filled(), 27);
    assert!(board.is_empty());
}
