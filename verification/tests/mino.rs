use tetroku_lib::{Mino, MINO_SIZE};

const O: bool = false;
const X: bool = true;

#[test]
fn test_mino_at_and_from_fn() {
    let t1 = Mino::from_rows([
        [X, X, X, X, X],
        [X, X, X, X, X],
        [X, X, X, X, X],
        [X, X, X, X, X],
        [X, X, X, X, X],
    ]);
    for y in 0..MINO_SIZE {
        for x in 0..MINO_SIZE {
            let expected = true;
            assert_eq!(t1.at(x, y).unwrap(), expected);
        }
    }
    assert_eq!(Mino::from_fn(|x, y| t1.at(x, y).unwrap()), t1);

    let t2 = Mino::from_rows([
        [X, X, X, X, O],
        [X, X, X, X, O],
        [X, X, X, X, O],
        [X, X, X, X, O],
        [X, X, X, X, O],
    ]);
    for y in 0..MINO_SIZE {
        for x in 0..MINO_SIZE {
            let expected = x != 4;
            assert_eq!(t2.at(x, y).unwrap(), expected);
        }
    }
    assert_eq!(Mino::from_fn(|x, y| t2.at(x, y).unwrap()), t2);
}

#[test]
fn test_mino_transformations() {
    let mino = Mino::from_rows([
        [O, X, O, O, O],
        [O, O, X, X, O],
        [O, X, X, O, O],
        [O, O, O, O, O],
        [O, O, O, O, X],
    ]);

    assert_eq!(
        mino.flip_horizontal(),
        Mino::from_rows([
            [O, O, O, X, O],
            [O, X, X, O, O],
            [O, O, X, X, O],
            [O, O, O, O, O],
            [X, O, O, O, O],
        ]),
    );

    assert_eq!(
        mino.flip_vertical(),
        Mino::from_rows([
            [O, O, O, O, X],
            [O, O, O, O, O],
            [O, X, X, O, O],
            [O, O, X, X, O],
            [O, X, O, O, O],
        ]),
    );

    assert_eq!(
        mino.rotate_cw_90(),
        Mino::from_rows([
            [O, O, O, O, O],
            [O, O, X, O, X],
            [O, O, X, X, O],
            [O, O, O, X, O],
            [X, O, O, O, O],
        ]),
    );

    assert_eq!(
        mino.rotate_180(),
        Mino::from_rows([
            [X, O, O, O, O],
            [O, O, O, O, O],
            [O, O, X, X, O],
            [O, X, X, O, O],
            [O, O, O, X, O],
        ]),
    );

    assert_eq!(
        mino.rotate_ccw_90(),
        Mino::from_rows([
            [O, O, O, O, X],
            [O, X, O, O, O],
            [O, X, X, O, O],
            [X, O, X, O, O],
            [O, O, O, O, O],
        ]),
    );
}

#[test]
fn test_min_max_points() {
    let mino = Mino::from_rows([
        [O, O, O, O, O],
        [O, O, X, O, O],
        [O, X, X, X, O],
        [O, O, X, O, O],
        [O, O, O, O, O],
    ]);

    assert_eq!(mino.min_point(), (1, 1));
    assert_eq!(mino.max_point(), (3, 3));
}

fn plus() -> Mino {
    Mino::from_rows([
        [O, O, O, O, O],
        [O, O, X, O, O],
        [O, X, X, X, O],
        [O, O, X, O, O],
        [O, O, O, O, O],
    ])
}

fn corner_cell() -> Mino {
    Mino::from_rows([
        [X, O, O, O, O],
        [O, O, O, O, O],
        [O, O, O, O, O],
        [O, O, O, O, O],
        [O, O, O, O, O],
    ])
}

#[test]
fn catalog_has_sixteen_distinct_shapes() {
    let tiles = Mino::all();
    assert_eq!(tiles.len(), 16);
    for i in 0..tiles.len() {
        for j in 0..i {
            assert_ne!(tiles[i], tiles[j]);
        }
    }
}

#[test]
fn catalog_shapes_have_the_listed_sizes() {
    let sizes: Vec<usize> = Mino::all().iter().map(|tile| tile.num_squares()).collect();
    assert_eq!(sizes, vec![5, 4, 3, 1, 4, 2, 3, 2, 3, 4, 5, 5, 4, 4, 5, 5]);
}

#[test]
fn catalog_starts_with_the_large_l_and_ends_with_the_plus() {
    let tiles = Mino::all();
    assert_eq!(
        tiles[0],
        Mino::from_rows([
            [O, O, O, O, O],
            [O, X, O, O, O],
            [O, X, O, O, O],
            [O, X, X, X, O],
            [O, O, O, O, O],
        ])
    );
    assert_eq!(tiles[3].iter(), vec![(2, 2)]);
    assert_eq!(tiles[10].iter(), vec![(0, 2), (1, 2), (2, 2), (3, 2), (4, 2)]);
    assert_eq!(tiles[15], plus());
}

#[test]
fn four_quarter_turns_give_the_mino_back() {
    for tile in Mino::all() {
        assert_eq!(tile.rotate_cw_90().rotate_cw_90().rotate_cw_90().rotate_cw_90(), tile);
        assert_eq!(tile.rotate_ccw_90().rotate_ccw_90().rotate_ccw_90().rotate_ccw_90(), tile);
        assert_eq!(tile.rotate_cw_90().rotate_ccw_90(), tile);
        assert_eq!(tile.rotate_cw_90().rotate_cw_90(), tile.rotate_180());
    }
}

#[test]
fn two_flips_give_the_mino_back() {
    for tile in Mino::all() {
        assert_eq!(tile.flip_horizontal().flip_horizontal(), tile);
        assert_eq!(tile.flip_vertical().flip_vertical(), tile);
        assert_eq!(tile.flip_horizontal().flip_vertical(), tile.rotate_180());
    }
}

#[test]
fn transforms_keep_the_number_of_cells() {
    for tile in Mino::all() {
        let cells = tile.num_squares();
        assert!(cells >= 1);
        assert_eq!(tile.flip_horizontal().num_squares(), cells);
        assert_eq!(tile.flip_vertical().num_squares(), cells);
        assert_eq!(tile.rotate_cw_90().num_squares(), cells);
        assert_eq!(tile.rotate_180().num_squares(), cells);
        assert_eq!(tile.rotate_ccw_90().num_squares(), cells);
    }
}

#[test]
fn num_squares_counts_every_cell() {
    let full = Mino::from_fn(|_, _| true);
    assert_eq!(full.num_squares(), 25);
    let blank = Mino::from_fn(|_, _| false);
    assert_eq!(blank.num_squares(), 0);
    assert_eq!(corner_cell().num_squares(), 1);
    let last = Mino::from_fn(|x, y| x == 4 && y == 4);
    assert_eq!(last.num_squares(), 1);
    assert_eq!(last.at(4, 4), Some(true));
    assert_eq!(last.at(3, 4), Some(false));
}

#[test]
fn at_is_none_outside_the_container() {
    let mino = plus();
    assert_eq!(mino.at(-1, 0), None);
    assert_eq!(mino.at(0, -1), None);
    assert_eq!(mino.at(5, 0), None);
    assert_eq!(mino.at(0, 5), None);
    assert_eq!(mino.at(127, 127), None);
    assert_eq!(mino.at(-128, -128), None);
    assert_eq!(mino.at(2, 2), Some(true));
    assert_eq!(mino.at(0, 0), Some(false));
    assert_eq!(mino.at(4, 4), Some(false));
}

#[test]
fn from_fn_asks_for_every_cell_once() {
    let asked = std::cell::RefCell::new(Vec::new());
    let mino = Mino::from_fn(|x, y| {
        asked.borrow_mut().push((x, y));
        x == y
    });
    let asked = asked.into_inner();
    assert_eq!(asked.len(), 25);
    for (i, cell) in asked.iter().enumerate() {
        assert_eq!(*cell, ((i % 5) as i8, (i / 5) as i8));
    }
    assert_eq!(mino.iter(), vec![(0, 0), (1, 1), (2, 2), (3, 3), (4, 4)]);
}

#[test]
fn iter_lists_the_filled_cells_row_by_row() {
    assert_eq!(plus().iter(), vec![(2, 1), (1, 2), (2, 2), (3, 2), (2, 3)]);
    assert_eq!(corner_cell().iter(), vec![(0, 0)]);
    assert_eq!(Mino::from_fn(|_, _| false).iter(), vec![]);
    assert_eq!(Mino::from_fn(|_, _| true).iter().len(), 25);
}

#[test]
fn corners_of_a_single_cell_and_of_a_full_container() {
    assert_eq!(corner_cell().min_point(), (0, 0));
    assert_eq!(corner_cell().max_point(), (0, 0));
    let full = Mino::from_fn(|_, _| true);
    assert_eq!(full.min_point(), (0, 0));
    assert_eq!(full.max_point(), (4, 4));
    let l = Mino::all()[1];
    assert_eq!(l.min_point(), (1, 1));
    assert_eq!(l.max_point(), (3, 2));
    let far = Mino::from_fn(|x, y| (x == 4 && y == 0) || (x == 0 && y == 4));
    assert_eq!(far.min_point(), (0, 0));
    assert_eq!(far.max_point(), (4, 4));
}

#[test]
fn a_quarter_turn_moves_the_top_left_cell_to_the_top_right() {
    let turned = corner_cell().rotate_cw_90();
    assert_eq!(turned.iter(), vec![(4, 0)]);
    assert_eq!(corner_cell().rotate_ccw_90().iter(), vec![(0, 4)]);
    assert_eq!(corner_cell().rotate_180().iter(), vec![(4, 4)]);
    assert_eq!(corner_cell().flip_horizontal().iter(), vec![(4, 0)]);
    assert_eq!(corner_cell().flip_vertical().iter(), vec![(0, 4)]);
}

#[test]
fn debug_string_shows_the_rows_of_a_mino() {
    assert_eq!(
        plus().debug_string(),
        "Mino(['0', '0', '0', '0', '0'], ['0', '0', '1', '0', '0'], \
         ['0', '1', '1', '1', '0'], ['0', '0', '1', '0', '0'], ['0', '0', '0', '0', '0'])"
    );
}
