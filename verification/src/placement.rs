//! Placing a mino on the board: where its cells land, whether they fit and
//! whether they are free, and the placement itself.

use vstd::prelude::*;
use crate::board::{
    on_board,
    Board,
    OutOfBounds,
    PlaceError,
    Position,
    WouldRemove,
    BOARD_SIZE,
};
use crate::clearing::filled_units;
use crate::mino::{cell_of, in_container, is_max_point, is_min_point, Mino};
use crate::seq_facts::{lemma_filter_members, lemma_filter_take_next, lemma_filter_take_none};
use crate::util::Coordinate;

verus! {

/// The cell on which the offset `offset` of a mino lands when the mino's
/// container has its top left corner at `at`.
pub open spec fn target(at: (Coordinate, Coordinate), offset: (Coordinate, Coordinate)) -> (
    int,
    int,
) {
    (at.0 + offset.0, at.1 + offset.1)
}

/// The cells that a mino covers when its container has its top left corner at `at`.
pub open spec fn placed(mino: Mino, at: (Coordinate, Coordinate)) -> Set<(int, int)> {
    Set::new(|cell: (int, int)| mino@.contains((cell.0 - at.0, cell.1 - at.1)))
}

/// Whether every cell of the mino, placed at `at`, lies on the board.
pub open spec fn fits(mino: Mino, at: (Coordinate, Coordinate)) -> bool {
    forall|cell: (int, int)| #[trigger] placed(mino, at).contains(cell) ==> on_board(cell)
}

/// The position of a cell, or the error where the cell is not on the board.
pub open spec fn located(cell: (int, int)) -> Result<Position, OutOfBounds> {
    if on_board(cell) {
        Ok(Position::at_cell(cell))
    } else {
        Err(OutOfBounds)
    }
}

/// Where the cells of a mino land, one entry for each filled cell, row by row.
pub open spec fn mapped_coordinates(mino: Mino, at: (Coordinate, Coordinate)) -> Seq<
    Result<Position, OutOfBounds>,
> {
    mino.offsets().map_values(|offset: (Coordinate, Coordinate)| located(target(at, offset)))
}

/// Whether an entry stands in the way of a placement: a cell outside the
/// board, or a cell that is occupied.
pub open spec fn is_conflict(occupied: Set<(int, int)>, entry: Result<Position, OutOfBounds>) -> bool {
    match entry {
        Ok(position) => occupied.contains(position@),
        Err(_) => true,
    }
}

/// The entries that stand in the way of a placement, in order.
pub open spec fn conflicts(occupied: Set<(int, int)>, mino: Mino, at: (Coordinate, Coordinate)) -> Seq<
    Result<Position, OutOfBounds>,
> {
    mapped_coordinates(mino, at).filter(
        |entry: Result<Position, OutOfBounds>| is_conflict(occupied, entry),
    )
}

/// The cells on which the first `n` filled cells of a mino land.
pub open spec fn landed(mino: Mino, at: (Coordinate, Coordinate), n: int) -> Set<(int, int)> {
    Set::new(
        |cell: (int, int)| exists|k: int| 0 <= k < n && target(at, #[trigger] mino.offsets()[k]) == cell,
    )
}

/// How a position is moved along one axis so that a mino that reaches from
/// `lo` to `hi` inside its container stays on the board: by as little as is
/// needed.
pub open spec fn clamped(position: int, lo: int, hi: int) -> int {
    if lo + position < 0 {
        -lo
    } else if hi + position >= 9 {
        8 - hi
    } else {
        position
    }
}

/// The filled cells of a mino land on the cells that the mino covers.
pub proof fn lemma_landed(mino: Mino, at: (Coordinate, Coordinate))
    ensures
        landed(mino, at, mino.offsets().len() as int) == placed(mino, at),
        mapped_coordinates(mino, at).len() == mino.offsets().len(),
        fits(mino, at) <==> forall|k: int|
            0 <= k < mino.offsets().len() ==> on_board(target(at, #[trigger] mino.offsets()[k])),
{
    mino.lemma_offsets();
    let n = mino.offsets().len() as int;
    assert forall|cell: (int, int)| landed(mino, at, n).contains(cell) == placed(
        mino,
        at,
    ).contains(cell) by {
        if placed(mino, at).contains(cell) {
            let source = (cell.0 - at.0, cell.1 - at.1);
            let k = choose|k: int|
                0 <= k < mino.offsets().len() && cell_of(#[trigger] mino.offsets()[k]) == source;
            assert(target(at, mino.offsets()[k]) == cell);
        }
        if landed(mino, at, n).contains(cell) {
            let k = choose|k: int| 0 <= k < n && target(at, #[trigger] mino.offsets()[k]) == cell;
            assert(mino@.contains(cell_of(mino.offsets()[k])));
        }
    }
    assert(landed(mino, at, n) =~= placed(mino, at));
    if fits(mino, at) {
        assert forall|k: int| 0 <= k < mino.offsets().len() implies on_board(
            target(at, #[trigger] mino.offsets()[k]),
        ) by {
            assert(landed(mino, at, n).contains(target(at, mino.offsets()[k])));
        }
    }
}

/// Nothing stands in the way of a placement exactly when the mino fits on
/// the board and covers no occupied cell.
pub proof fn lemma_no_conflicts(occupied: Set<(int, int)>, mino: Mino, at: (Coordinate, Coordinate))
    ensures
        conflicts(occupied, mino, at).len() == 0 <==> fits(mino, at) && occupied.disjoint(
            placed(mino, at),
        ),
{
    lemma_landed(mino, at);
    let mapped = mapped_coordinates(mino, at);
    let pred = |entry: Result<Position, OutOfBounds>| is_conflict(occupied, entry);
    let n = mino.offsets().len() as int;
    lemma_filter_members(mapped, pred);
    if conflicts(occupied, mino, at).len() == 0 {
        assert forall|k: int| 0 <= k < n implies !is_conflict(occupied, #[trigger] mapped[k]) by {
            if is_conflict(occupied, mapped[k]) {
                assert(mapped.filter(pred).contains(mapped[k]));
            }
        }
        assert forall|k: int| 0 <= k < n implies on_board(
            target(at, #[trigger] mino.offsets()[k]),
        ) by {
            assert(!is_conflict(occupied, mapped[k]));
        }
        assert forall|cell: (int, int)|
            !(occupied.contains(cell) && placed(mino, at).contains(cell)) by {
            if placed(mino, at).contains(cell) {
                assert(landed(mino, at, n).contains(cell));
                let k = choose|k: int|
                    0 <= k < n && target(at, #[trigger] mino.offsets()[k]) == cell;
                assert(!is_conflict(occupied, mapped[k]));
                Position::lemma_at_cell(cell);
            }
        }
    } else {
        let entry = conflicts(occupied, mino, at)[0];
        assert(pred(entry) && mapped.contains(entry));
        let k = choose|k: int| 0 <= k < mapped.len() && mapped[k] == entry;
        let cell = target(at, mino.offsets()[k]);
        assert(landed(mino, at, n).contains(cell));
        if fits(mino, at) {
            Position::lemma_at_cell(cell);
            assert(occupied.contains(cell) && placed(mino, at).contains(cell));
        }
    }
}

/// The entries that stand in the way of a placement: one of them is an error
/// exactly when the mino does not fit, and the others are the positions of
/// the occupied cells of the board that the mino covers.
pub proof fn lemma_conflicts(occupied: Set<(int, int)>, mino: Mino, at: (Coordinate, Coordinate))
    ensures
        (exists|j: int|
            0 <= j < conflicts(occupied, mino, at).len() && (#[trigger] conflicts(
                occupied,
                mino,
                at,
            )[j]) is Err) <==> !fits(mino, at),
        forall|j: int|
            0 <= j < conflicts(occupied, mino, at).len() ==> ((#[trigger] conflicts(
                occupied,
                mino,
                at,
            )[j]) matches Ok(position) ==> on_board(position@) && occupied.contains(position@)
                && placed(mino, at).contains(position@)),
        forall|cell: (int, int)|
            on_board(cell) && occupied.contains(cell) && placed(mino, at).contains(cell)
                ==> conflicts(occupied, mino, at).contains(Ok(Position::at_cell(cell))),
{
    lemma_landed(mino, at);
    let mapped = mapped_coordinates(mino, at);
    let found = conflicts(occupied, mino, at);
    let pred = |entry: Result<Position, OutOfBounds>| is_conflict(occupied, entry);
    let n = mino.offsets().len() as int;
    lemma_filter_members(mapped, pred);
    assert forall|j: int| 0 <= j < found.len() implies ((#[trigger] found[j]) matches Ok(
        position,
    ) ==> on_board(position@) && occupied.contains(position@) && placed(mino, at).contains(
        position@,
    )) by {
        assert(mapped.contains(found[j]));
        let k = choose|k: int| 0 <= k < mapped.len() && mapped[k] == found[j];
        let cell = target(at, mino.offsets()[k]);
        assert(landed(mino, at, n).contains(cell));
        if on_board(cell) {
            Position::lemma_at_cell(cell);
        }
    }
    assert forall|cell: (int, int)|
        on_board(cell) && occupied.contains(cell) && placed(mino, at).contains(
            cell,
        ) implies found.contains(Ok(Position::at_cell(cell))) by {
        assert(landed(mino, at, n).contains(cell));
        let k = choose|k: int| 0 <= k < n && target(at, #[trigger] mino.offsets()[k]) == cell;
        Position::lemma_at_cell(cell);
        assert(mapped[k] == Ok::<Position, OutOfBounds>(Position::at_cell(cell)));
        assert(pred(mapped[k]));
    }
    if !fits(mino, at) {
        let k = choose|k: int|
            0 <= k < mino.offsets().len() && !on_board(target(at, #[trigger] mino.offsets()[k]));
        assert(mapped[k] is Err && pred(mapped[k]));
        assert(found.contains(mapped[k]));
        let j = choose|j: int| 0 <= j < found.len() && found[j] == mapped[k];
        assert(found[j] is Err);
    }
    if exists|j: int| 0 <= j < found.len() && (#[trigger] found[j]) is Err {
        let j = choose|j: int| 0 <= j < found.len() && (#[trigger] found[j]) is Err;
        assert(mapped.contains(found[j]));
        let k = choose|k: int| 0 <= k < mapped.len() && mapped[k] == found[j];
        assert(!on_board(target(at, mino.offsets()[k])));
    }
}

/// A mino fits on the board at the positions that keep its tightest box on
/// the board, and at no others.
pub proof fn lemma_fits_range(
    mino: Mino,
    at: (Coordinate, Coordinate),
    lo: (Coordinate, Coordinate),
    hi: (Coordinate, Coordinate),
)
    requires
        is_min_point(mino@, cell_of(lo)),
        is_max_point(mino@, cell_of(hi)),
    ensures
        fits(mino, at) <==> -lo.0 <= at.0 <= 8 - hi.0 && -lo.1 <= at.1 <= 8 - hi.1,
{
    if fits(mino, at) {
        let left = choose|cell: (int, int)| mino@.contains(cell) && cell.0 == lo.0;
        let moved_left = (left.0 + at.0, left.1 + at.1);
        assert((moved_left.0 - at.0, moved_left.1 - at.1) == left);
        assert(placed(mino, at).contains(moved_left));
        let top = choose|cell: (int, int)| mino@.contains(cell) && cell.1 == lo.1;
        let moved_top = (top.0 + at.0, top.1 + at.1);
        assert((moved_top.0 - at.0, moved_top.1 - at.1) == top);
        assert(placed(mino, at).contains(moved_top));
        let right = choose|cell: (int, int)| mino@.contains(cell) && cell.0 == hi.0;
        let moved_right = (right.0 + at.0, right.1 + at.1);
        assert((moved_right.0 - at.0, moved_right.1 - at.1) == right);
        assert(placed(mino, at).contains(moved_right));
        let bottom = choose|cell: (int, int)| mino@.contains(cell) && cell.1 == hi.1;
        let moved_bottom = (bottom.0 + at.0, bottom.1 + at.1);
        assert((moved_bottom.0 - at.0, moved_bottom.1 - at.1) == bottom);
        assert(placed(mino, at).contains(moved_bottom));
    }
    if -lo.0 <= at.0 <= 8 - hi.0 && -lo.1 <= at.1 <= 8 - hi.1 {
        assert forall|cell: (int, int)| placed(mino, at).contains(cell) implies on_board(cell) by {
            let source = (cell.0 - at.0, cell.1 - at.1);
            assert(mino@.contains(source));
        }
    }
}

/// On a board without an occupied cell every mino can be placed.
pub proof fn lemma_can_place_on_empty_board(board: Board, mino: Mino)
    requires
        board@ == Set::<(int, int)>::empty(),
    ensures
        board.can_place_anywhere(mino),
{
    let at: (Coordinate, Coordinate) = (0, 0);
    mino.lemma_cells_in_container();
    assert forall|cell: (int, int)| placed(mino, at).contains(cell) implies on_board(cell) by {
        assert(mino@.contains((cell.0 - at.0, cell.1 - at.1)));
    }
    assert(fits(mino, at));
    assert(board@.disjoint(placed(mino, at)));
}

/// On a board without a free cell no mino that fills a cell can be placed.
pub proof fn lemma_cannot_place_on_full_board(board: Board, mino: Mino)
    requires
        forall|cell: (int, int)| on_board(cell) ==> board@.contains(cell),
        mino@.len() > 0,
    ensures
        !board.can_place_anywhere(mino),
{
    let source = mino.lemma_has_cell();
    assert forall|at: (Coordinate, Coordinate)|
        !(fits(mino, at) && board@.disjoint(#[trigger] placed(mino, at))) by {
        let cell = (source.0 + at.0, source.1 + at.1);
        assert((cell.0 - at.0, cell.1 - at.1) == source);
        assert(placed(mino, at).contains(cell));
        if fits(mino, at) {
            assert(on_board(cell));
            assert(board@.contains(cell));
        }
    }
}

/// A position moved along one axis so that a mino that reaches from `min`
/// to `max` inside its container stays on the board.
fn clamp_axis(position: Coordinate, min: Coordinate, max: Coordinate) -> (moved: Coordinate)
    requires
        0 <= min <= max < 5,
    ensures
        moved == clamped(position as int, min as int, max as int),
{
    let min_on_board: i16 = min as i16 + position as i16;
    let max_on_board: i16 = max as i16 + position as i16;
    let shift: i16 = if min_on_board < 0 {
        -min_on_board
    } else if max_on_board >= 9 {
        9 - max_on_board - 1
    } else {
        0
    };
    (position as i16 + shift) as Coordinate
}

/// Where one filled cell of a mino lands.
fn locate(at: (Coordinate, Coordinate), offset: (Coordinate, Coordinate)) -> (entry: Result<
    Position,
    OutOfBounds,
>)
    ensures
        entry == located(target(at, offset)),
        entry matches Ok(position) ==> position.wf(),
{
    match (at.0.checked_add(offset.0), at.1.checked_add(offset.1)) {
        (Some(x), Some(y)) => match Position::new(x, y) {
            Some(position) => {
                proof {
                    position.lemma_on_board();
                }
                Ok(position)
            },
            None => Err(OutOfBounds),
        },
        _ => Err(OutOfBounds),
    }
}

impl Board {
    /// What `can_place_anywhere` returns.
    pub open spec fn spec_can_place_anywhere(&self, mino: Mino) -> bool {
        exists|at: (Coordinate, Coordinate)|
            fits(mino, at) && self@.disjoint(#[trigger] placed(mino, at))
    }

    /// Where the cells of the mino land when its container has its top left
    /// corner at `mino_position`: for each filled cell, row by row, its
    /// position on the board, or the error where it lies outside.
    pub fn map_mino_coordinates(mino: Mino, mino_position: (Coordinate, Coordinate)) -> (mapped: Vec<
        Result<Position, OutOfBounds>,
    >)
        ensures
            mapped@ == mapped_coordinates(mino, mino_position),
            forall|k: int|
                0 <= k < mapped@.len() ==> ((#[trigger] mapped@[k]) matches Ok(position)
                    ==> position.wf()),
    {
        let offsets = mino.iter();
        let mut mapped: Vec<Result<Position, OutOfBounds>> = Vec::new();
        let mut k: usize = 0;
        while k < offsets.len()
            invariant
                k <= offsets@.len(),
                offsets@ == mino.offsets(),
                mapped@.len() == k,
                forall|j: int|
                    0 <= j < k ==> #[trigger] mapped@[j] == located(
                        target(mino_position, offsets@[j]),
                    ),
                forall|j: int|
                    0 <= j < k ==> ((#[trigger] mapped@[j]) matches Ok(position)
                        ==> position.wf()),
            decreases offsets@.len() - k,
        {
            mapped.push(locate(mino_position, offsets[k]));
            k += 1;
        }
        proof {
            assert(mapped@ =~= mapped_coordinates(mino, mino_position));
        }
        mapped
    }

    /// Whether every cell of the mino lies on the board when the mino's
    /// container has its top left corner at `mino_position`.
    pub fn is_in_bounds(mino: Mino, mino_position: (Coordinate, Coordinate)) -> (in_bounds: bool)
        ensures
            in_bounds == fits(mino, mino_position),
    {
        let mapped = Self::map_mino_coordinates(mino, mino_position);
        proof {
            lemma_landed(mino, mino_position);
        }
        let mut k: usize = 0;
        while k < mapped.len()
            invariant
                k <= mapped@.len(),
                mapped@ == mapped_coordinates(mino, mino_position),
                mapped@.len() == mino.offsets().len(),
                forall|j: int| 0 <= j < k ==> (#[trigger] mapped@[j]) is Ok,
                fits(mino, mino_position) <==> forall|j: int|
                    0 <= j < mino.offsets().len() ==> on_board(
                        target(mino_position, #[trigger] mino.offsets()[j]),
                    ),
            decreases mapped@.len() - k,
        {
            if mapped[k].is_err() {
                proof {
                    assert(!on_board(target(mino_position, mino.offsets()[k as int])));
                }
                return false;
            }
            k += 1;
        }
        proof {
            assert forall|j: int| 0 <= j < mino.offsets().len() implies on_board(
                target(mino_position, #[trigger] mino.offsets()[j]),
            ) by {
                assert(mapped@[j] is Ok);
            }
        }
        true
    }

    /// The entries that stand in the way of placing the mino at
    /// `mino_position`: the errors of the cells that lie outside the board,
    /// and the positions of the cells that are occupied, in the mino's order.
    pub fn iter_conflicts(&self, mino: Mino, mino_position: (Coordinate, Coordinate)) -> (found: Vec<
        Result<Position, OutOfBounds>,
    >)
        ensures
            found@ == conflicts(self@, mino, mino_position),
            forall|k: int|
                0 <= k < found@.len() ==> ((#[trigger] found@[k]) matches Ok(position)
                    ==> position.wf()),
    {
        let ghost pred = |entry: Result<Position, OutOfBounds>| is_conflict(self@, entry);
        let mapped = Self::map_mino_coordinates(mino, mino_position);
        let mut found: Vec<Result<Position, OutOfBounds>> = Vec::new();
        let mut k: usize = 0;
        proof {
            lemma_filter_take_none(mapped@, pred);
        }
        while k < mapped.len()
            invariant
                k <= mapped@.len(),
                pred == |entry: Result<Position, OutOfBounds>| is_conflict(self@, entry),
                mapped@ == mapped_coordinates(mino, mino_position),
                forall|j: int|
                    0 <= j < mapped@.len() ==> ((#[trigger] mapped@[j]) matches Ok(position)
                        ==> position.wf()),
                found@ == mapped@.take(k as int).filter(pred),
                forall|j: int|
                    0 <= j < found@.len() ==> ((#[trigger] found@[j]) matches Ok(position)
                        ==> position.wf()),
            decreases mapped@.len() - k,
        {
            proof {
                lemma_filter_take_next(mapped@, pred, k as int);
            }
            let entry = mapped[k];
            let keep = match entry {
                Ok(position) => self.occupied(position),
                Err(_) => true,
            };
            if keep {
                found.push(entry);
            }
            k += 1;
        }
        proof {
            assert(mapped@.take(mapped@.len() as int) =~= mapped@);
        }
        found
    }

    /// Whether the mino can be placed somewhere on the board: whether there
    /// is a position at which it fits and covers no occupied cell.
    #[verifier::when_used_as_spec(spec_can_place_anywhere)]
    pub fn can_place_anywhere(&self, mino: Mino) -> (can_place: bool)
        requires
            mino@.len() > 0,
        ensures
            can_place == self.spec_can_place_anywhere(mino),
    {
        let min = mino.min_point();
        let max = mino.max_point();

        let min_place = (-min.0, -min.1);
        let max_place = (BOARD_SIZE - 1 - max.0, BOARD_SIZE - 1 - max.1);

        let mut y = min_place.1;
        while y <= max_place.1
            invariant
                is_min_point(mino@, cell_of(min)),
                is_max_point(mino@, cell_of(max)),
                in_container(cell_of(min)),
                in_container(cell_of(max)),
                min_place.0 == -min.0 && min_place.1 == -min.1,
                max_place.0 == 8 - max.0 && max_place.1 == 8 - max.1,
                min_place.1 <= y <= max_place.1 + 1,
                forall|at: (Coordinate, Coordinate)|
                    min_place.0 <= at.0 <= max_place.0 && min_place.1 <= at.1 < y ==> !(fits(
                        mino,
                        at,
                    ) && self@.disjoint(#[trigger] placed(mino, at))),
            decreases max_place.1 + 1 - y,
        {
            let mut x = min_place.0;
            while x <= max_place.0
                invariant
                    is_min_point(mino@, cell_of(min)),
                    is_max_point(mino@, cell_of(max)),
                    in_container(cell_of(min)),
                    in_container(cell_of(max)),
                    min_place.0 == -min.0 && min_place.1 == -min.1,
                    max_place.0 == 8 - max.0 && max_place.1 == 8 - max.1,
                    min_place.1 <= y <= max_place.1,
                    min_place.0 <= x <= max_place.0 + 1,
                    forall|at: (Coordinate, Coordinate)|
                        min_place.0 <= at.0 <= max_place.0 && min_place.1 <= at.1 < y ==> !(fits(
                            mino,
                            at,
                        ) && self@.disjoint(#[trigger] placed(mino, at))),
                    forall|at: (Coordinate, Coordinate)|
                        min_place.0 <= at.0 < x && at.1 == y ==> !(fits(mino, at)
                            && self@.disjoint(#[trigger] placed(mino, at))),
                decreases max_place.0 + 1 - x,
            {
                proof {
                    lemma_no_conflicts(self@, mino, (x, y));
                }
                if self.iter_conflicts(mino, (x, y)).len() == 0 {
                    return true;
                }
                x += 1;
            }
            y += 1;
        }
        proof {
            assert forall|at: (Coordinate, Coordinate)|
                !(fits(mino, at) && self@.disjoint(#[trigger] placed(mino, at))) by {
                lemma_fits_range(mino, at, min, max);
            }
        }
        false
    }

    /// The position nearest to `pos`, on each axis by itself, at which the
    /// mino fits on the board. Occupied cells play no part.
    pub fn clamp_mino_position(mino: Mino, pos: (Coordinate, Coordinate)) -> (moved: (
        Coordinate,
        Coordinate,
    ))
        requires
            mino@.len() > 0,
        ensures
            moved.0 == clamped(
                pos.0 as int,
                mino.min_point().0 as int,
                mino.max_point().0 as int,
            ),
            moved.1 == clamped(
                pos.1 as int,
                mino.min_point().1 as int,
                mino.max_point().1 as int,
            ),
            fits(mino, moved),
            fits(mino, pos) ==> moved == pos,
    {
        let min_on_board = mino.min_point();
        let max_on_board = mino.max_point();
        proof {
            let witness = mino.lemma_has_cell();
        }
        let moved = (
            clamp_axis(pos.0, min_on_board.0, max_on_board.0),
            clamp_axis(pos.1, min_on_board.1, max_on_board.1),
        );
        proof {
            lemma_fits_range(mino, moved, min_on_board, max_on_board);
            lemma_fits_range(mino, pos, min_on_board, max_on_board);
        }
        moved
    }

    /// The occupied cells of the board that the mino, placed at
    /// `mino_position`, would cover, as a board of their own; or the error
    /// if a cell of the mino would lie outside the board.
    pub fn find_conflicts(&self, mino: Mino, mino_position: (Coordinate, Coordinate)) -> (found: Result<
        Board,
        OutOfBounds,
    >)
        ensures
            match found {
                Ok(board) => fits(mino, mino_position) && board@ == self@.intersect(
                    placed(mino, mino_position),
                ),
                Err(_) => !fits(mino, mino_position),
            },
    {
        let mut ret = Board::new();
        let entries = self.iter_conflicts(mino, mino_position);
        let mut k: usize = 0;
        while k < entries.len()
            invariant
                k <= entries@.len(),
                entries@ == conflicts(self@, mino, mino_position),
                forall|j: int|
                    0 <= j < entries@.len() ==> ((#[trigger] entries@[j]) matches Ok(position)
                        ==> position.wf()),
                forall|j: int| 0 <= j < k ==> (#[trigger] entries@[j]) is Ok,
                forall|cell: (int, int)|
                    ret@.contains(cell) <==> exists|j: int|
                        0 <= j < k && #[trigger] entries@[j] == Ok::<Position, OutOfBounds>(
                            Position::at_cell(cell),
                        ) && on_board(cell),
            decreases entries@.len() - k,
        {
            match entries[k] {
                Ok(conflict) => {
                    proof {
                        conflict.lemma_on_board();
                    }
                    let ghost before = ret@;
                    ret.set(conflict, true);
                    proof {
                        assert forall|cell: (int, int)|
                            ret@.contains(cell) <==> exists|j: int|
                                0 <= j < k + 1 && #[trigger] entries@[j] == Ok::<
                                    Position,
                                    OutOfBounds,
                                >(Position::at_cell(cell)) && on_board(cell) by {
                            if cell == conflict@ {
                                assert(entries@[k as int] == Ok::<Position, OutOfBounds>(
                                    Position::at_cell(cell),
                                ));
                            }
                            if before.contains(cell) {
                                let j = choose|j: int|
                                    0 <= j < k && #[trigger] entries@[j] == Ok::<
                                        Position,
                                        OutOfBounds,
                                    >(Position::at_cell(cell)) && on_board(cell);
                                assert(0 <= j < k + 1);
                            }
                            if exists|j: int|
                                0 <= j < k + 1 && #[trigger] entries@[j] == Ok::<
                                    Position,
                                    OutOfBounds,
                                >(Position::at_cell(cell)) && on_board(cell) {
                                let j = choose|j: int|
                                    0 <= j < k + 1 && #[trigger] entries@[j] == Ok::<
                                        Position,
                                        OutOfBounds,
                                    >(Position::at_cell(cell)) && on_board(cell);
                                Position::lemma_at_cell(cell);
                                if j == k {
                                    assert(cell == conflict@);
                                }
                            }
                        }
                    }
                },
                Err(error) => {
                    proof {
                        lemma_conflicts(self@, mino, mino_position);
                        assert(conflicts(self@, mino, mino_position)[k as int] is Err);
                    }
                    return Err(error);
                },
            }
            k += 1;
        }
        proof {
            lemma_conflicts(self@, mino, mino_position);
            self.lemma_cells_on_board();
            assert(fits(mino, mino_position)) by {
                if !fits(mino, mino_position) {
                    let j = choose|j: int|
                        0 <= j < conflicts(self@, mino, mino_position).len() && (#[trigger] conflicts(
                            self@,
                            mino,
                            mino_position,
                        )[j]) is Err;
                    assert(entries@[j] is Ok);
                }
            }
            let wanted = self@.intersect(placed(mino, mino_position));
            assert forall|cell: (int, int)| ret@.contains(cell) == wanted.contains(cell) by {
                if ret@.contains(cell) {
                    let j = choose|j: int|
                        0 <= j < k && #[trigger] entries@[j] == Ok::<Position, OutOfBounds>(
                            Position::at_cell(cell),
                        ) && on_board(cell);
                    Position::lemma_at_cell(cell);
                }
                if wanted.contains(cell) {
                    assert(entries@.contains(Ok(Position::at_cell(cell))));
                    let j = choose|j: int|
                        0 <= j < entries@.len() && entries@[j] == Ok::<Position, OutOfBounds>(
                            Position::at_cell(cell),
                        );
                    assert(0 <= j < k);
                }
            }
            assert(ret@ =~= wanted);
        }
        Ok(ret)
    }

    /// Places the mino with the top left corner of its container at
    /// `mino_position`: makes every cell that it covers occupied. Where a
    /// cell would lie outside the board, or on an occupied cell, the board
    /// stays as it was and the error says which of the two it is; a cell
    /// outside the board comes first.
    pub fn place_at(&mut self, mino: Mino, mino_position: (Coordinate, Coordinate)) -> (placing: Result<
        (),
        PlaceError,
    >)
        ensures
            match placing {
                Ok(()) => fits(mino, mino_position) && old(self)@.disjoint(
                    placed(mino, mino_position),
                ) && final(self)@ == old(self)@.union(placed(mino, mino_position)),
                Err(PlaceError::OutOfBounds) => !fits(mino, mino_position) && *final(self) == *old(self),
                Err(PlaceError::Conflicts) => fits(mino, mino_position) && !old(self)@.disjoint(
                    placed(mino, mino_position),
                ) && *final(self) == *old(self),
            },
    {
        let mut atomic = *self;
        let mut conflict = false;
        let mapped = Self::map_mino_coordinates(mino, mino_position);
        proof {
            lemma_landed(mino, mino_position);
        }
        let mut k: usize = 0;
        while k < mapped.len()
            invariant
                k <= mapped@.len(),
                *self == *old(self),
                mapped@ == mapped_coordinates(mino, mino_position),
                mapped@.len() == mino.offsets().len(),
                forall|j: int|
                    0 <= j < mapped@.len() ==> ((#[trigger] mapped@[j]) matches Ok(position)
                        ==> position.wf()),
                forall|j: int|
                    0 <= j < k ==> on_board(target(mino_position, #[trigger] mino.offsets()[j])),
                atomic@ == self@.union(landed(mino, mino_position, k as int)),
                conflict <==> !self@.disjoint(landed(mino, mino_position, k as int)),
                fits(mino, mino_position) <==> forall|j: int|
                    0 <= j < mino.offsets().len() ==> on_board(
                        target(mino_position, #[trigger] mino.offsets()[j]),
                    ),
            decreases mapped@.len() - k,
        {
            let position = match mapped[k] {
                Ok(position) => position,
                Err(error) => {
                    proof {
                        assert(!on_board(target(mino_position, mino.offsets()[k as int])));
                    }
                    return Err(PlaceError::from(error));
                },
            };
            proof {
                position.lemma_on_board();
                let cell = target(mino_position, mino.offsets()[k as int]);
                Position::lemma_at_cell(cell);
                assert(position@ == cell);
                assert(landed(mino, mino_position, k + 1) =~= landed(
                    mino,
                    mino_position,
                    k as int,
                ).insert(cell)) by {
                    assert forall|other: (int, int)|
                        landed(mino, mino_position, k + 1).contains(other) == landed(
                            mino,
                            mino_position,
                            k as int,
                        ).insert(cell).contains(other) by {
                        if landed(mino, mino_position, k + 1).contains(other) {
                            let j = choose|j: int|
                                0 <= j < k + 1 && target(
                                    mino_position,
                                    #[trigger] mino.offsets()[j],
                                ) == other;
                            if j < k {
                                assert(landed(mino, mino_position, k as int).contains(other));
                            }
                        }
                        if landed(mino, mino_position, k as int).contains(other) {
                            let j = choose|j: int|
                                0 <= j < k && target(mino_position, #[trigger] mino.offsets()[j])
                                    == other;
                            assert(0 <= j < k + 1);
                        }
                        if other == cell {
                            assert(target(mino_position, mino.offsets()[k as int]) == other);
                        }
                    }
                }
            }
            if self.occupied(position) {
                conflict = true;
            }
            atomic.set(position, true);
            k += 1;
        }
        if conflict {
            return Err(PlaceError::Conflicts);
        }
        *self = atomic;
        Ok(())
    }

    /// The units that would be full after the mino was placed at
    /// `mino_position`, in the order of `find_filled`; or the error with
    /// which the placement would fail. The board itself stays as it is: the
    /// placement is made on a copy.
    pub fn find_would_remove(&self, mino: Mino, mino_position: (Coordinate, Coordinate)) -> (preview: Result<
        Vec<WouldRemove>,
        PlaceError,
    >)
        ensures
            match preview {
                Ok(units) => fits(mino, mino_position) && self@.disjoint(
                    placed(mino, mino_position),
                ) && units@ == filled_units(self@.union(placed(mino, mino_position))),
                Err(PlaceError::OutOfBounds) => !fits(mino, mino_position),
                Err(PlaceError::Conflicts) => fits(mino, mino_position) && !self@.disjoint(
                    placed(mino, mino_position),
                ),
            },
    {
        let mut board = *self;
        match board.place_at(mino, mino_position) {
            Ok(()) => Ok(board.find_filled()),
            Err(error) => Err(error),
        }
    }
}

} // verus!
