use tetroku_lib::game::{reshape, MAX_POINTS};
use tetroku_lib::{
    score_text, Board, CellLook, Game, Mino, MinoState, Position, SplatExt, TILE_BATCH_SIZE,
};

fn cells(game: &Game) -> Vec<(i8, i8)> {
    Position::all().into_iter().filter(|p| game.occupied(*p)).map(|p| p.to_xy()).collect()
}

fn mirror(game: &Game) -> Board {
    let mut board = Board::new();
    for position in Position::all() {
        board.set(position, game.occupied(position));
    }
    board
}

fn offers() -> Vec<Mino> {
    let mut offers = Vec::new();
    for tile in Mino::all() {
        for flags in 0..16 {
            offers.push(reshape(tile, flags & 1 != 0, flags & 2 != 0, flags & 4 != 0, flags & 8 != 0));
        }
    }
    offers
}

fn start_of(mino: Mino) -> (i8, i8) {
    let min = mino.min_point();
    (-min.0, -min.1)
}

#[test]
fn reshape_flips_and_then_turns() {
    for tile in Mino::all() {
        assert_eq!(reshape(tile, false, false, false, false), tile);
        assert_eq!(reshape(tile, true, false, false, false), tile.flip_horizontal());
        assert_eq!(reshape(tile, false, true, false, false), tile.flip_vertical());
        assert_eq!(reshape(tile, false, false, false, true), tile.rotate_cw_90());
        assert_eq!(reshape(tile, false, false, true, false), tile.rotate_180());
        assert_eq!(reshape(tile, false, false, true, true), tile.rotate_ccw_90());
        assert_eq!(
            reshape(tile, true, true, true, true),
            tile.flip_horizontal().flip_vertical().rotate_ccw_90()
        );
        assert_eq!(
            reshape(tile, true, false, false, true),
            tile.flip_horizontal().rotate_cw_90()
        );
    }
}

#[test]
fn a_new_game_offers_three_minos_and_places_the_first() {
    let offers = offers();
    let mut seen = Vec::new();
    for _ in 0..300 {
        let game = Game::new();
        assert_eq!(game.score(), 0);
        assert!(!game.lost());
        assert!(cells(&game).is_empty());
        assert!(game.would_remove_board().is_empty());
        for idx in 0..TILE_BATCH_SIZE {
            let state = game.mino_state(idx).unwrap();
            assert!(offers.contains(&state.mino));
            assert!(state.mino.num_squares() >= 1);
            assert!(state.can_place);
            assert_eq!(state.is_placing, idx == 0);
            if !seen.contains(&state.mino) {
                seen.push(state.mino);
            }
        }
        let first = game.mino_state(0).unwrap().mino;
        assert_eq!(game.placing(), Some((first, start_of(first))));
    }
    // Three hundred games offer nine hundred minos: more than a few shapes.
    assert!(seen.len() > 16);
}

#[test]
fn finishing_puts_the_mino_down_and_counts_its_cells() {
    let mut game = Game::new();
    let (mino, pos) = game.placing().unwrap();
    let mut expected = Board::new();
    expected.place_at(mino, pos).unwrap();

    game.finish_placing();

    assert_eq!(game.score(), mino.num_squares() as u32);
    for position in Position::all() {
        assert_eq!(game.occupied(position), expected.occupied(position));
    }
    assert!(game.mino_state(0).is_none());
    let second = game.mino_state(1).unwrap();
    assert!(second.is_placing);
    assert_eq!(game.placing(), Some((second.mino, start_of(second.mino))));
    assert!(!game.lost());
}

#[test]
fn finishing_on_occupied_cells_changes_nothing() {
    let mut game = Game::new();
    let (mino, pos) = game.placing().unwrap();
    game.finish_placing();
    let score = game.score();
    let before = cells(&game);

    // Bring the second mino over the first one, cell on cell.
    let (second, _) = game.placing().unwrap();
    let first_cell = mino.iter()[0];
    let second_cell = second.iter()[0];
    let target = (
        pos.0 + first_cell.0 - second_cell.0,
        pos.1 + first_cell.1 - second_cell.1,
    );
    game.start_dragging((0, 0));
    let (_, at) = game.placing().unwrap();
    game.continue_dragging((2 * (target.0 - at.0) as isize, (target.1 - at.1) as isize));
    game.finish_dragging();
    if game.placing().unwrap().1 == target {
        game.finish_placing();
        assert_eq!(game.score(), score);
        assert_eq!(cells(&game), before);
        assert_eq!(game.placing(), Some((second, target)));
    }
}

#[test]
fn moving_steps_by_one_and_comes_in_again_at_the_far_edge() {
    let mut game = Game::new();
    let (mino, start) = game.placing().unwrap();
    let max = mino.max_point();
    let far = (8 - max.0, 8 - max.1);

    game.move_placing(0, 0);
    assert_eq!(game.placing(), Some((mino, start)));

    game.move_placing(-1, 0);
    assert_eq!(game.placing(), Some((mino, (far.0, start.1))));
    game.move_placing(1, 0);
    assert_eq!(game.placing(), Some((mino, start)));

    game.move_placing(0, -1);
    assert_eq!(game.placing(), Some((mino, (start.0, far.1))));
    game.move_placing(0, 1);
    assert_eq!(game.placing(), Some((mino, start)));

    if far.0 > start.0 {
        game.move_placing(1, 0);
        assert_eq!(game.placing(), Some((mino, (start.0 + 1, start.1))));
        game.move_placing(-1, 0);
        assert_eq!(game.placing(), Some((mino, start)));
    }

    game.move_placing(127, 127);
    assert!(Board::is_in_bounds(mino, game.placing().unwrap().1));
    game.move_placing(-128, -128);
    assert!(Board::is_in_bounds(mino, game.placing().unwrap().1));
    assert_eq!(game.score(), 0);
    assert!(cells(&game).is_empty());
}

#[test]
fn starting_to_place_another_mino_puts_it_at_its_start() {
    let mut game = Game::new();
    for idx in [2, 1, 0, 1] {
        game.start_placing(idx);
        let mino = game.mino_state(idx).unwrap().mino;
        assert_eq!(game.placing(), Some((mino, start_of(mino))));
        for other in 0..TILE_BATCH_SIZE {
            assert_eq!(game.mino_state(other).unwrap().is_placing, other == idx);
        }
    }
    game.start_placing(0);
    game.finish_placing();
    let placing = game.placing();
    game.start_placing(0);
    assert_eq!(game.placing(), placing);
}

#[test]
fn dragging_follows_the_mouse_and_stays_on_the_board() {
    let mut game = Game::new();
    let (mino, start) = game.placing().unwrap();
    let max = mino.max_point();
    let far = (8 - max.0, 8 - max.1);

    // Without a drag the mouse moves nothing.
    game.continue_dragging((40, 40));
    assert_eq!(game.placing(), Some((mino, start)));

    game.start_dragging((10, 5));
    game.continue_dragging((10, 5));
    assert_eq!(game.placing(), Some((mino, start)));
    game.continue_dragging((11, 5));
    assert_eq!(game.placing(), Some((mino, start)));
    if far.0 > start.0 && far.1 > start.1 {
        game.continue_dragging((12, 6));
        assert_eq!(game.placing(), Some((mino, (start.0 + 1, start.1 + 1))));
    }
    game.continue_dragging((1000, 1000));
    assert_eq!(game.placing(), Some((mino, far)));
    game.continue_dragging((-1000, -1000));
    assert_eq!(game.placing(), Some((mino, start)));
    game.continue_dragging((isize::MAX, isize::MAX));
    assert_eq!(game.placing(), Some((mino, far)));
    game.continue_dragging((isize::MIN, isize::MIN));
    assert_eq!(game.placing(), Some((mino, start)));

    game.finish_dragging();
    game.continue_dragging((1000, 1000));
    assert_eq!(game.placing(), Some((mino, start)));

    game.start_dragging((isize::MIN, isize::MAX));
    game.continue_dragging((isize::MIN, isize::MAX));
    assert!(Board::is_in_bounds(mino, game.placing().unwrap().1));
    game.start_dragging((isize::MAX, isize::MIN));
    game.continue_dragging((0, 0));
    assert!(Board::is_in_bounds(mino, game.placing().unwrap().1));
}

/// A position at which the mino can be put down, if there is one.
fn free_position(board: &Board, mino: Mino) -> Option<(i8, i8)> {
    for y in -4..9 {
        for x in -4..9 {
            if let Ok(conflicts) = board.find_conflicts(mino, (x, y)) {
                if conflicts.is_empty() {
                    return Some((x, y));
                }
            }
        }
    }
    None
}

#[test]
fn a_game_played_to_its_end_keeps_score_and_board() {
    for _ in 0..8 {
        let mut game = Game::new();
        let mut moves = 0;
        while !game.lost() && moves < 300 && game.score() <= u32::MAX - MAX_POINTS {
            let board = mirror(&game);
            let (mino, at) = game.placing().expect("a game that is not lost places a mino");
            assert!(Board::is_in_bounds(mino, at));
            assert!(board.can_place_anywhere(mino));
            let target = free_position(&board, mino).unwrap();

            game.start_dragging((0, 0));
            game.continue_dragging((2 * (target.0 - at.0) as isize, (target.1 - at.1) as isize));
            game.finish_dragging();
            assert_eq!(game.placing(), Some((mino, target)));

            let mut expected = board;
            let would_remove = expected.find_would_remove(mino, target).unwrap();
            let marked = game.would_remove_board();
            for position in Position::all() {
                let covered = would_remove.iter().any(|unit| unit.iter().contains(&position));
                assert_eq!(marked.occupied(position), covered);
            }
            expected.place_at(mino, target).unwrap();
            let units = expected.remove_filled() as u32;
            assert_eq!(units as usize, would_remove.len());
            let points = mino.num_squares() as u32 + 3 * units + 3 * units.saturating_sub(1);
            assert!(points <= MAX_POINTS);

            let score = game.score();
            game.finish_placing();
            assert_eq!(game.score(), score + points);
            for position in Position::all() {
                assert_eq!(game.occupied(position), expected.occupied(position));
            }

            let mut any = false;
            for idx in 0..TILE_BATCH_SIZE {
                if let Some(state) = game.mino_state(idx) {
                    assert_eq!(state.can_place, expected.can_place_anywhere(state.mino));
                    any = any || state.can_place;
                }
            }
            assert_eq!(game.lost(), !any);
            match game.placing() {
                Some((next, at)) => {
                    assert!(any);
                    assert_eq!(at, start_of(next));
                    let first = (0..TILE_BATCH_SIZE)
                        .find(|idx| game.mino_state(*idx).map_or(false, |state| state.can_place))
                        .unwrap();
                    assert!(game.mino_state(first).unwrap().is_placing);
                    assert_eq!(game.mino_state(first).unwrap().mino, next);
                },
                None => assert!(game.lost()),
            }
            moves += 1;
        }
        assert!(moves > 0);
    }
}

#[test]
fn the_most_points_of_a_placement() {
    // A mino of 25 cells that fills all 27 units.
    assert_eq!(25 + 3 * 27 + 3 * 26, MAX_POINTS);
}

#[test]
fn cell_looks_of_a_new_game_show_the_mino_that_is_being_placed() {
    let mut game = Game::new();
    let (mino, pos) = game.placing().unwrap();
    let looks = game.cell_looks();
    assert_eq!(looks.len(), 81);
    for (position, look) in Position::all().into_iter().zip(looks) {
        let (x, y) = position.to_xy();
        let under = mino.at(x - pos.0, y - pos.1) == Some(true);
        assert_eq!(look, if under { CellLook::WouldBeFilled } else { CellLook::Empty });
    }
    game.finish_placing();
    let (next, at) = game.placing().unwrap();
    for (position, look) in Position::all().into_iter().zip(game.cell_looks()) {
        let (x, y) = position.to_xy();
        let under = next.at(x - at.0, y - at.1) == Some(true);
        let expected = match (under, game.occupied(position)) {
            (true, true) => CellLook::WouldConflict,
            (true, false) => CellLook::WouldBeFilled,
            (false, true) => CellLook::Filled,
            (false, false) => CellLook::Empty,
        };
        assert_eq!(look, expected);
    }
}

#[test]
fn cell_looks_of_a_mino_on_offer() {
    let mino = Mino::all()[3];
    let idle = MinoState { mino, can_place: true, is_placing: false };
    assert_eq!(idle.cell_look(2, 2), Some(CellLook::Filled));
    assert_eq!(idle.cell_look(0, 0), Some(CellLook::Empty));
    assert_eq!(idle.cell_look(0, 5), None);
    assert_eq!(idle.cell_look(-1, 0), None);
    let active = MinoState { mino, can_place: true, is_placing: true };
    assert_eq!(active.cell_look(2, 2), Some(CellLook::WouldBeFilledAndRemoved));
    assert_eq!(active.cell_look(1, 2), Some(CellLook::Empty));
    let stuck = MinoState { mino, can_place: false, is_placing: true };
    assert_eq!(stuck.cell_look(2, 2), Some(CellLook::WouldConflict));
    assert_eq!(stuck.cell_look(4, 4), Some(CellLook::Empty));
}

#[test]
fn splat_repeats_the_item() {
    let pair: (i8, i8) = SplatExt::splat(7);
    assert_eq!(pair, (7, 7));
    let pair: (String, String) = SplatExt::splat(String::from("x"));
    assert_eq!(pair, (String::from("x"), String::from("x")));
}

#[test]
fn score_text_counts_points() {
    assert_eq!(score_text(false, 0), [String::new(), String::from("0 points")]);
    assert_eq!(score_text(false, 1), [String::new(), String::from("1 point")]);
    assert_eq!(score_text(false, 2), [String::new(), String::from("2 points")]);
    assert_eq!(score_text(false, 10), [String::new(), String::from("10 points")]);
    assert_eq!(score_text(false, 11), [String::new(), String::from("11 points")]);
    assert_eq!(score_text(false, 1905), [String::new(), String::from("1905 points")]);
    assert_eq!(
        score_text(true, u32::MAX),
        [String::from("You lost (press r)"), String::from("4294967295 points")]
    );
    assert_eq!(score_text(true, 1)[0], "You lost (press r)");
    for score in 0..2000u32 {
        let expected = format!("{} point{}", score, if score == 1 { "" } else { "s" });
        assert_eq!(score_text(false, score)[1], expected);
    }
}
