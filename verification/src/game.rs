//! One game of the puzzle: the board, the three minos on offer, the mino
//! that is being placed, and the score.

use vstd::prelude::*;
use vstd::pervasive::unreached;
use crate::board::{on_board, Board, Position, WouldRemove};
use crate::clearing::{
    among_first,
    cleared,
    covered,
    filled_units,
    lemma_among_first_next,
    lemma_covered_next,
    lemma_filled_units_valid,
};
use crate::mino::{
    catalog,
    cell_of,
    in_container,
    is_min_point,
    lemma_catalog_shapes,
    lemma_transforms_keep_num_squares,
    within_container,
    Mino,
};
use crate::placement::{
    clamped,
    fits,
    lemma_can_place_on_empty_board,
    placed,
};
use crate::util::Coordinate;

verus! {

/// The number of minos that are on offer at a time.
pub const TILE_BATCH_SIZE: usize = 3;

/// The most points that one placement can bring: a mino of 25 cells that
/// fills all 27 units.
pub const MAX_POINTS: u32 = 184;

/// The mino that is being placed: its slot, and the position on the board
/// of the top left corner of its container.
#[derive(Debug, Clone, Copy)]
struct Placing {
    idx: usize,
    pos: (Coordinate, Coordinate),
}

/// A drag with the mouse: what has to be added to the mouse's position,
/// its column halved, to get the position of the mino.
#[derive(Debug, Clone, Copy)]
struct Dragging {
    relative_mino_pos: (isize, isize),
}

/// One game.
///
/// Its view is a `GameState`.
#[derive(Debug, Clone, Copy)]
pub struct Game {
    board: Board,
    minos: [Option<Mino>; TILE_BATCH_SIZE],
    placing: Option<Placing>,
    score: u32,
    last_points: u32,
    lost: bool,
    dragging: Option<Dragging>,
}

/// What a game holds.
pub struct GameState {
    /// The board.
    pub board: Board,
    /// The three slots of the minos on offer; a slot is empty once its mino is placed.
    pub minos: Seq<Option<Mino>>,
    /// The slot of the mino that is being placed, and its position.
    pub placing: Option<(int, (Coordinate, Coordinate))>,
    /// The points so far.
    pub score: nat,
    /// The points of the last placement.
    pub last_points: nat,
    /// Whether none of the minos on offer can be placed.
    pub lost: bool,
    /// The drag that is going on: what is added to the mouse's position.
    pub dragging: Option<(int, int)>,
}

/// What a mino looks like after the given flips and turns: flipped left to
/// right, then flipped top to bottom, then turned by none, one, two or
/// three quarters clockwise.
pub open spec fn reshaped(
    mino: Mino,
    flip_horizontal: bool,
    flip_vertical: bool,
    half_turn: bool,
    quarter_turn: bool,
) -> Mino {
    let flipped = if flip_horizontal {
        mino.flip_horizontal()
    } else {
        mino
    };
    let flipped = if flip_vertical {
        flipped.flip_vertical()
    } else {
        flipped
    };
    match (half_turn, quarter_turn) {
        (false, false) => flipped,
        (false, true) => flipped.rotate_cw_90(),
        (true, false) => flipped.rotate_180(),
        (true, true) => flipped.rotate_ccw_90(),
    }
}

/// Whether the mino is a shape of the catalog under some flips and turns.
pub open spec fn is_offer(mino: Mino) -> bool {
    exists|i: int, flip_horizontal: bool, flip_vertical: bool, half_turn: bool, quarter_turn: bool|
        0 <= i < 16 && mino == #[trigger] reshaped(
            Mino::of_cells(catalog()[i]),
            flip_horizontal,
            flip_vertical,
            half_turn,
            quarter_turn,
        )
}

/// The position at which the placing of a mino starts: the one that puts
/// the top left corner of its tightest box on the top left cell of the board.
pub open spec fn start_position(mino: Mino) -> (Coordinate, Coordinate) {
    ((-mino.min_point().0) as Coordinate, (-mino.min_point().1) as Coordinate)
}

/// Whether the slot holds a mino that can be placed somewhere on the board.
pub open spec fn placeable(board: Board, slot: Option<Mino>) -> bool {
    slot matches Some(mino) && board.can_place_anywhere(mino)
}

/// Whether `idx` is the first slot with a mino that can be placed.
pub open spec fn first_placeable(board: Board, minos: Seq<Option<Mino>>, idx: int) -> bool {
    &&& 0 <= idx < minos.len()
    &&& placeable(board, minos[idx])
    &&& forall|j: int| 0 <= j < idx ==> !placeable(board, #[trigger] minos[j])
}

/// Whether none of the minos on offer can be placed.
pub open spec fn is_lost(board: Board, minos: Seq<Option<Mino>>) -> bool {
    forall|i: int| 0 <= i < minos.len() ==> !placeable(board, #[trigger] minos[i])
}

/// The points for placing a mino of `squares` cells that fills `units` units.
pub open spec fn placement_points(squares: nat, units: nat) -> nat {
    squares + 3 * units + 3 * (if units >= 1 {
        units - 1
    } else {
        0
    }) as nat
}

/// Half of `x`, rounded towards zero.
pub open spec fn halved(x: int) -> int {
    if x >= 0 {
        x / 2
    } else {
        -((-x) / 2)
    }
}

/// The number `x`, or the nearest of `lo` and `hi` where it lies outside them.
pub open spec fn clipped(x: int, lo: int, hi: int) -> int {
    if x < lo {
        lo
    } else if x > hi {
        hi
    } else {
        x
    }
}

/// Whether the mino fits on the board at `(x, y)`.
pub open spec fn fits_at(mino: Mino, x: int, y: int) -> bool {
    -128 <= x <= 127 && -128 <= y <= 127 && fits(mino, (x as Coordinate, y as Coordinate))
}

/// Whether the mino gets from `from` to `to` in `steps` steps of
/// `(-dx, -dy)`, fitting on the board after each step.
pub open spec fn slides_back(
    mino: Mino,
    from: (int, int),
    dx: int,
    dy: int,
    to: (int, int),
    steps: nat,
) -> bool
    decreases steps,
{
    if steps == 0 {
        to == from
    } else {
        fits_at(mino, from.0 - dx, from.1 - dy) && slides_back(
            mino,
            (from.0 - dx, from.1 - dy),
            dx,
            dy,
            to,
            (steps - 1) as nat,
        )
    }
}

impl GameState {
    /// What always holds of a game: there are three slots, every mino on
    /// offer fills a cell, and the mino that is being placed is on offer
    /// and fits on the board where it is.
    pub open spec fn valid(self) -> bool {
        &&& self.minos.len() == 3
        &&& forall|i: int|
            0 <= i < 3 ==> ((#[trigger] self.minos[i]) matches Some(mino) ==> mino.wf() && mino@.len()
                > 0)
        &&& self.placing matches Some((idx, pos)) ==> 0 <= idx < 3 && (self.minos[idx] matches Some(
            mino,
        ) && fits(mino, pos))
    }

    /// The mino that is being placed.
    pub open spec fn placing_mino(self) -> Mino {
        self.minos[self.placing.unwrap().0].unwrap()
    }

    /// Whether the mino that is being placed can be put down where it is.
    pub open spec fn can_finish(self) -> bool {
        self.placing matches Some((idx, pos)) && self.board@.disjoint(
            placed(self.minos[idx].unwrap(), pos),
        )
    }

    /// The units that are full once the mino that is being placed is put down.
    pub open spec fn would_fill(self) -> Seq<WouldRemove> {
        filled_units(self.board@.union(placed(self.placing_mino(), self.placing.unwrap().1)))
    }

    /// Whether the cell lies under the mino that is being placed.
    pub open spec fn under_mino(self, cell: (int, int)) -> bool {
        self.placing matches Some((idx, pos)) && placed(self.minos[idx].unwrap(), pos).contains(
            cell,
        )
    }

    /// Whether the cell lies in a unit that putting down the mino that is
    /// being placed would fill.
    pub open spec fn would_be_removed(self, cell: (int, int)) -> bool {
        self.can_finish() && covered(self.would_fill(), self.would_fill().len() as int, cell)
    }

    /// How the cell of the board is shown.
    pub open spec fn look_of(self, cell: (int, int)) -> CellLook {
        if self.under_mino(cell) {
            if self.board@.contains(cell) {
                CellLook::WouldConflict
            } else if self.would_be_removed(cell) {
                CellLook::WouldBeFilledAndRemoved
            } else {
                CellLook::WouldBeFilled
            }
        } else if self.board@.contains(cell) {
            if self.would_be_removed(cell) {
                CellLook::WouldBeRemoved
            } else {
                CellLook::Filled
            }
        } else {
            CellLook::Empty
        }
    }

    /// The points that putting down the mino that is being placed brings.
    pub open spec fn points_at_stake(self) -> nat {
        if self.can_finish() {
            placement_points(self.placing_mino()@.len(), self.would_fill().len())
        } else {
            0
        }
    }
}

/// `rand::random::<bool>()`: a toss of a coin with the thread's generator
/// of random numbers. Nothing is known of the outcome. The generator is
/// seeded by the operating system, and the call does not return where
/// that fails.
#[verifier::external_body]
fn random_bool() -> bool {
    rand::random()
}

/// `rand::seq::IteratorRandom::choose` on the range `0..n`, with the
/// generator that `rand::thread_rng()` hands out: one of the numbers below
/// `n`, or nothing where `n` is zero. Which number it is is not known. The
/// generator is seeded by the operating system, and the call does not
/// return where that fails.
#[verifier::external_body]
fn random_below(n: usize) -> (chosen: Option<usize>)
    ensures
        match chosen {
            Some(i) => i < n,
            None => n == 0,
        },
{
    rand::seq::IteratorRandom::choose(0..n, &mut rand::thread_rng())
}

/// The mino under the given flips and turns: flipped left to right, then
/// flipped top to bottom, then turned by none, one, two or three quarters
/// clockwise.
pub fn reshape(
    mino: Mino,
    flip_horizontal: bool,
    flip_vertical: bool,
    half_turn: bool,
    quarter_turn: bool,
) -> (shape: Mino)
    ensures
        shape == reshaped(mino, flip_horizontal, flip_vertical, half_turn, quarter_turn),
        shape.wf(),
        shape@.len() == mino@.len(),
{
    proof {
        use_type_invariant(&mino);
    }
    let mut shape = mino;
    if flip_horizontal {
        proof {
            lemma_transforms_keep_num_squares(shape);
            shape.lemma_finite();
            shape.flip_horizontal().lemma_finite();
        }
        shape = shape.flip_horizontal();
    }
    if flip_vertical {
        proof {
            lemma_transforms_keep_num_squares(shape);
            shape.lemma_finite();
            shape.flip_vertical().lemma_finite();
        }
        shape = shape.flip_vertical();
    }
    proof {
        lemma_transforms_keep_num_squares(shape);
        shape.lemma_finite();
        shape.rotate_cw_90().lemma_finite();
        shape.rotate_180().lemma_finite();
        shape.rotate_ccw_90().lemma_finite();
    }
    match (half_turn, quarter_turn) {
        (false, false) => shape,
        (false, true) => shape.rotate_cw_90(),
        (true, false) => shape.rotate_180(),
        (true, true) => shape.rotate_ccw_90(),
    }
}

/// One of the shapes of the catalog, picked at random, under flips and
/// turns that are picked at random.
fn random_mino() -> (mino: Mino)
    ensures
        mino.wf(),
        is_offer(mino),
        mino@.len() > 0,
{
    let tiles = Mino::all();
    let index = match random_below(tiles.len()) {
        Some(index) => index,
        None => unreached(),
    };
    let tile = tiles[index];
    proof {
        lemma_catalog_shapes(index as int);
        assert(within_container(catalog()[index as int]) =~= catalog()[index as int]);
        tile.lemma_is_of_cells(catalog()[index as int]);
    }
    let flip_horizontal = random_bool();
    let flip_vertical = random_bool();
    let half_turn = random_bool();
    let quarter_turn = random_bool();
    let mino = reshape(tile, flip_horizontal, flip_vertical, half_turn, quarter_turn);
    proof {
        assert(mino == reshaped(
            Mino::of_cells(catalog()[index as int]),
            flip_horizontal,
            flip_vertical,
            half_turn,
            quarter_turn,
        ));
    }
    mino
}

/// How a cell is shown.
#[derive(Debug, Clone, Copy, PartialEq, Eq, Structural)]
pub enum CellLook {
    /// A free cell.
    Empty,
    /// An occupied cell.
    Filled,
    /// A free cell under the mino that is being placed.
    WouldBeFilled,
    /// An occupied cell under the mino that is being placed.
    WouldConflict,
    /// An occupied cell of a unit that the placement would fill.
    WouldBeRemoved,
    /// A free cell under the mino that is being placed, in a unit that the
    /// placement would fill.
    WouldBeFilledAndRemoved,
}

/// What is known of a mino on offer and of the mino that is being placed.
pub struct MinoState {
    /// The mino.
    pub mino: Mino,
    /// Whether the mino can be placed somewhere on the board.
    /// If `false`, the mino has no compatible placements.
    pub can_place: bool,
    /// Whether this is the mino currently being placed.
    pub is_placing: bool,
}

/// The start position puts a mino on the board.
proof fn lemma_start_position(mino: Mino, min: (Coordinate, Coordinate))
    requires
        is_min_point(mino@, cell_of(min)),
        in_container(cell_of(min)),
    ensures
        fits(mino, ((-min.0) as Coordinate, (-min.1) as Coordinate)),
{
    let at = ((-min.0) as Coordinate, (-min.1) as Coordinate);
    mino.lemma_cells_in_container();
    assert forall|cell: (int, int)| #[trigger] placed(mino, at).contains(cell) implies on_board(
        cell,
    ) by {
        assert(mino@.contains((cell.0 - at.0, cell.1 - at.1)));
    }
}

/// A mino that fits on the board is not far from it.
proof fn lemma_fits_near(mino: Mino, at: (Coordinate, Coordinate))
    requires
        mino@.len() > 0,
        fits(mino, at),
    ensures
        -4 <= at.0 <= 8,
        -4 <= at.1 <= 8,
{
    let source = mino.lemma_has_cell();
    let cell = (source.0 + at.0, source.1 + at.1);
    assert((cell.0 - at.0, cell.1 - at.1) == source);
    assert(placed(mino, at).contains(cell));
}

/// One step more at the end of a slide is a slide.
proof fn lemma_slides_back_more(
    mino: Mino,
    from: (int, int),
    dx: int,
    dy: int,
    to: (int, int),
    steps: nat,
)
    requires
        slides_back(mino, from, dx, dy, to, steps),
        fits_at(mino, to.0 - dx, to.1 - dy),
    ensures
        slides_back(mino, from, dx, dy, (to.0 - dx, to.1 - dy), steps + 1),
    decreases steps,
{
    reveal_with_fuel(slides_back, 3);
    if steps > 0 {
        lemma_slides_back_more(
            mino,
            (from.0 - dx, from.1 - dy),
            dx,
            dy,
            to,
            (steps - 1) as nat,
        );
        assert(slides_back(
            mino,
            (from.0 - dx, from.1 - dy),
            dx,
            dy,
            (to.0 - dx, to.1 - dy),
            steps,
        ));
    } else {
        assert(slides_back(
            mino,
            (from.0 - dx, from.1 - dy),
            dx,
            dy,
            (to.0 - dx, to.1 - dy),
            0,
        ));
    }
}

/// The position one step of `(dx, dy)` away, if the mino fits on the board there.
fn try_step(mino: Mino, from: (Coordinate, Coordinate), dx: i16, dy: i16) -> (to: Option<
    (Coordinate, Coordinate),
>)
    requires
        -128 <= dx <= 128,
        -128 <= dy <= 128,
    ensures
        match to {
            Some(to) => to.0 == from.0 + dx && to.1 == from.1 + dy && fits(mino, to),
            None => !fits_at(mino, from.0 + dx, from.1 + dy),
        },
{
    let x: i16 = from.0 as i16 + dx;
    let y: i16 = from.1 as i16 + dy;
    if x < -128 || x > 127 || y < -128 || y > 127 {
        return None;
    }
    let to = (x as Coordinate, y as Coordinate);
    if Board::is_in_bounds(mino, to) {
        Some(to)
    } else {
        None
    }
}

/// The sum of two numbers, or the nearest number that there is where the
/// sum is too large or too small.
fn saturating_sum(a: isize, b: isize) -> (sum: isize)
    ensures
        sum == clipped(a + b, isize::MIN as int, isize::MAX as int),
{
    match a.checked_add(b) {
        Some(sum) => sum,
        None => if a > 0 {
            isize::MAX
        } else {
            isize::MIN
        },
    }
}

/// The difference of two numbers, or the nearest number that there is
/// where the difference is too large or too small.
fn saturating_difference(a: isize, b: isize) -> (difference: isize)
    ensures
        difference == clipped(a - b, isize::MIN as int, isize::MAX as int),
{
    match a.checked_sub(b) {
        Some(difference) => difference,
        None => if a >= 0 {
            isize::MAX
        } else {
            isize::MIN
        },
    }
}

/// The coordinate nearest to `x`.
fn nearest_coordinate(x: isize) -> (coordinate: Coordinate)
    ensures
        coordinate == clipped(x as int, -128, 127),
{
    if x < -128 {
        -128
    } else if x > 127 {
        127
    } else {
        x as Coordinate
    }
}

/// A placement brings no more points than `MAX_POINTS`.
pub proof fn lemma_points_bound(state: GameState)
    requires
        state.valid(),
    ensures
        state.points_at_stake() <= MAX_POINTS,
{
    if state.can_finish() {
        state.placing_mino().lemma_finite();
        lemma_filled_units_valid(
            state.board@.union(placed(state.placing_mino(), state.placing.unwrap().1)),
        );
    }
}

/// How far a slide against `(dx, dy)` can still go from `at`.
spec fn slide_room(at: (Coordinate, Coordinate), dx: int, dy: int) -> int {
    if dx > 0 {
        at.0 + 5
    } else if dx < 0 {
        9 - at.0
    } else if dy > 0 {
        at.1 + 5
    } else {
        9 - at.1
    }
}

impl View for Game {
    type V = GameState;

    closed spec fn view(&self) -> GameState {
        GameState {
            board: self.board,
            minos: self.minos@,
            placing: match self.placing {
                Some(placing) => Some((placing.idx as int, placing.pos)),
                None => None,
            },
            score: self.score as nat,
            last_points: self.last_points as nat,
            lost: self.lost,
            dragging: match self.dragging {
                Some(dragging) => Some(
                    (dragging.relative_mino_pos.0 as int, dragging.relative_mino_pos.1 as int),
                ),
                None => None,
            },
        }
    }
}

impl Game {
    /// What always holds of a game.
    #[verifier::type_invariant]
    pub closed spec fn wf(self) -> bool {
        self@.valid()
    }

    /// A new game: an empty board, three minos picked at random, no points,
    /// and the first mino ready to be placed.
    pub fn new() -> (game: Self)
        ensures
            game@.valid(),
            game@.board@ == Set::<(int, int)>::empty(),
            forall|i: int| 0 <= i < 3 ==> (#[trigger] game@.minos[i]) is Some && is_offer(
                game@.minos[i].unwrap(),
            ),
            game@.placing == Some((0int, start_position(game@.minos[0].unwrap()))),
            game@.score == 0,
            game@.last_points == 0,
            !game@.lost,
            game@.dragging is None,
    {
        let mut ret = Self {
            board: Board::new(),
            minos: [None; TILE_BATCH_SIZE],
            placing: None,
            score: 0,
            last_points: 0,
            lost: false,
            dragging: None,
        };

        ret.generate_minos();
        ret.start_placing_next();
        proof {
            let first = ret@.minos[0].unwrap();
            lemma_can_place_on_empty_board(ret@.board, first);
            assert(first_placeable(ret@.board, ret@.minos, 0));
            assert(placeable(ret@.board, ret@.minos[0]));
        }
        ret
    }

    /// Puts three minos picked at random on offer.
    fn generate_minos(&mut self)
        requires
            old(self)@.placing is None,
        ensures
            forall|i: int| 0 <= i < 3 ==> (#[trigger] final(self)@.minos[i]) is Some && is_offer(
                final(self)@.minos[i].unwrap(),
            ),
            final(self)@.valid(),
            final(self)@.lost == is_lost(final(self)@.board, final(self)@.minos),
            final(self)@.board == old(self)@.board,
            final(self)@.placing is None,
            final(self)@.score == old(self)@.score,
            final(self)@.last_points == old(self)@.last_points,
            final(self)@.dragging == old(self)@.dragging,
    {
        proof {
            use_type_invariant(&*self);
        }
        let mut i: usize = 0;
        while i < TILE_BATCH_SIZE
            invariant
                i <= 3,
                self@.valid(),
                forall|j: int| 0 <= j < i ==> (#[trigger] self@.minos[j]) is Some && is_offer(
                    self@.minos[j].unwrap(),
                ),
                self@.board == old(self)@.board,
                self@.placing is None,
                self@.score == old(self)@.score,
                self@.last_points == old(self)@.last_points,
                self@.dragging == old(self)@.dragging,
            decreases 3 - i,
        {
            let mino = random_mino();
            self.minos[i] = Some(mino);
            i += 1;
        }
        self.update_lost();
    }

    /// Finds out whether none of the minos on offer can be placed.
    fn update_lost(&mut self)
        ensures
            final(self)@.lost == is_lost(old(self)@.board, old(self)@.minos),
            final(self)@.valid(),
            final(self)@.board == old(self)@.board,
            final(self)@.minos == old(self)@.minos,
            final(self)@.placing == old(self)@.placing,
            final(self)@.score == old(self)@.score,
            final(self)@.last_points == old(self)@.last_points,
            final(self)@.dragging == old(self)@.dragging,
    {
        proof {
            use_type_invariant(&*self);
        }
        let mut lost = true;
        let mut i: usize = 0;
        while i < TILE_BATCH_SIZE
            invariant
                i <= 3,
                self@.valid(),
                *self == *old(self),
                lost == forall|j: int| 0 <= j < i ==> !placeable(self@.board, #[trigger] self@.minos[j]),
            decreases 3 - i,
        {
            if let Some(mino) = self.minos[i] {
                if self.board.can_place_anywhere(mino) {
                    proof {
                        assert(placeable(self@.board, self@.minos[i as int]));
                    }
                    lost = false;
                }
            }
            i += 1;
        }
        self.lost = lost;
    }

    /// Starts placing the mino of the slot `idx`, if the slot holds one: at
    /// the position that puts the top left corner of its tightest box on
    /// the top left cell of the board.
    pub fn start_placing(&mut self, idx: usize)
        requires
            idx < TILE_BATCH_SIZE,
        ensures
            final(self)@.valid(),
            final(self)@.placing == match old(self)@.minos[idx as int] {
                Some(mino) => Some((idx as int, start_position(mino))),
                None => old(self)@.placing,
            },
            final(self)@.board == old(self)@.board,
            final(self)@.minos == old(self)@.minos,
            final(self)@.score == old(self)@.score,
            final(self)@.last_points == old(self)@.last_points,
            final(self)@.lost == old(self)@.lost,
            final(self)@.dragging == old(self)@.dragging,
    {
        proof {
            use_type_invariant(&*self);
        }
        let mino = match self.minos[idx] {
            Some(mino) => mino,
            None => {
                return ;
            },
        };
        let min_point = mino.min_point();
        proof {
            lemma_start_position(mino, min_point);
        }
        self.placing = Some(Placing { idx, pos: (-min_point.0, -min_point.1) });
    }

    /// Starts placing the first mino on offer that can be placed, if there is one.
    fn start_placing_next(&mut self)
        ensures
            final(self)@.valid(),
            forall|idx: int|
                first_placeable(old(self)@.board, old(self)@.minos, idx) ==> final(self)@.placing
                    == Some((idx, start_position(old(self)@.minos[idx].unwrap()))),
            is_lost(old(self)@.board, old(self)@.minos) ==> final(self)@.placing == old(self)@.placing,
            final(self)@.board == old(self)@.board,
            final(self)@.minos == old(self)@.minos,
            final(self)@.score == old(self)@.score,
            final(self)@.last_points == old(self)@.last_points,
            final(self)@.lost == old(self)@.lost,
            final(self)@.dragging == old(self)@.dragging,
    {
        proof {
            use_type_invariant(&*self);
        }
        let mut i: usize = 0;
        while i < TILE_BATCH_SIZE
            invariant
                i <= 3,
                self@.valid(),
                *self == *old(self),
                forall|j: int| 0 <= j < i ==> !placeable(self@.board, #[trigger] self@.minos[j]),
            decreases 3 - i,
        {
            if let Some(mino) = self.minos[i] {
                if self.board.can_place_anywhere(mino) {
                    proof {
                        assert(first_placeable(self@.board, self@.minos, i as int));
                        assert forall|idx: int|
                            first_placeable(self@.board, self@.minos, idx) implies idx == i by {
                            if idx < i {
                                assert(!placeable(self@.board, self@.minos[idx]));
                            }
                            if idx > i {
                                assert(placeable(self@.board, self@.minos[i as int]));
                            }
                        }
                        assert(!is_lost(self@.board, self@.minos));
                    }
                    self.start_placing(i);
                    return ;
                }
            }
            i += 1;
        }
        proof {
            assert forall|idx: int| !first_placeable(self@.board, self@.minos, idx) by {
                if 0 <= idx < 3 {
                    assert(!placeable(self@.board, self@.minos[idx]));
                }
            }
        }
    }

    /// The mino that is being placed, and its position.
    pub fn placing(&self) -> (placing: Option<(Mino, (Coordinate, Coordinate))>)
        ensures
            placing == match self@.placing {
                Some((idx, pos)) => Some((self@.minos[idx].unwrap(), pos)),
                None => None,
            },
    {
        proof {
            use_type_invariant(self);
        }
        match self.placing {
            Some(placing) => Some((self.minos[placing.idx].unwrap(), placing.pos)),
            None => None,
        }
    }

    /// Whether the cell at `position` is occupied.
    pub fn occupied(&self, position: Position) -> (occupied: bool)
        ensures
            occupied == self@.board@.contains(position@),
    {
        self.board.occupied(position)
    }

    /// Whether none of the minos on offer can be placed.
    pub fn lost(&self) -> (lost: bool)
        ensures
            lost == self@.lost,
    {
        self.lost
    }

    /// The points so far.
    pub fn score(&self) -> (score: u32)
        ensures
            score == self@.score,
    {
        self.score
    }

    /// Ends the drag that is going on.
    pub fn finish_dragging(&mut self)
        ensures
            final(self)@.dragging is None,
            final(self)@.board == old(self)@.board,
            final(self)@.minos == old(self)@.minos,
            final(self)@.placing == old(self)@.placing,
            final(self)@.score == old(self)@.score,
            final(self)@.last_points == old(self)@.last_points,
            final(self)@.lost == old(self)@.lost,
    {
        proof {
            use_type_invariant(&*self);
        }
        self.dragging = None;
    }

    /// Puts the mino that is being placed down where it is, if no cell
    /// under it is occupied. The placement brings a point for each cell of
    /// the mino, three points for each unit that it fills, and three more
    /// for each unit after the first; the full units are cleared. When
    /// the last mino on offer is placed, three new ones are picked. Then
    /// the next mino that can be placed is made ready.
    ///
    /// The score must have room for the points of the placement, which are
    /// no more than `MAX_POINTS` (`lemma_points_bound`).
    pub fn finish_placing(&mut self)
        requires
            old(self)@.score + old(self)@.points_at_stake() <= u32::MAX,
        ensures
            final(self)@.valid(),
            final(self)@.dragging == old(self)@.dragging,
            !old(self)@.can_finish() ==> *final(self) == *old(self),
            old(self)@.can_finish() ==> {
                let state = old(self)@;
                let (idx, pos) = state.placing.unwrap();
                let rest = state.minos.update(idx, None);
                &&& final(self)@.board@ == cleared(
                    state.board@.union(placed(state.placing_mino(), pos)),
                )
                &&& final(self)@.last_points == state.points_at_stake()
                &&& final(self)@.score == state.score + state.points_at_stake()
                &&& if exists|i: int| 0 <= i < 3 && (#[trigger] rest[i]) is Some {
                    final(self)@.minos == rest
                } else {
                    forall|i: int|
                        0 <= i < 3 ==> (#[trigger] final(self)@.minos[i]) is Some && is_offer(
                            final(self)@.minos[i].unwrap(),
                        )
                }
                &&& final(self)@.lost == is_lost(final(self)@.board, final(self)@.minos)
                &&& forall|next: int|
                    first_placeable(final(self)@.board, final(self)@.minos, next) ==> final(self)@.placing == Some(
                        (next, start_position(final(self)@.minos[next].unwrap())),
                    )
                &&& final(self)@.lost ==> final(self)@.placing is None
            },
    {
        proof {
            use_type_invariant(&*self);
        }
        let placing = match self.placing {
            Some(placing) => placing,
            None => {
                return ;
            },
        };
        let mino = self.minos[placing.idx].unwrap();
        let mut board = self.board;
        match board.place_at(mino, placing.pos) {
            Ok(()) => (),
            Err(_) => {
                return ;
            },
        }

        let mut points: u32 = 0;

        proof {
            mino.lemma_finite();
            lemma_filled_units_valid(board@);
        }
        points += mino.num_squares() as u32;
        self.placing = None;
        self.minos[placing.idx] = None;

        let feature_count = board.remove_filled() as u32;
        self.board = board;
        points += 3 * feature_count + 3 * feature_count.saturating_sub(1);

        self.last_points = points;
        self.score += points;

        self.update_lost();
        if self.minos[0].is_none() && self.minos[1].is_none() && self.minos[2].is_none() {
            self.generate_minos();
        } else {
            proof {
                let rest = old(self)@.minos.update(placing.idx as int, None);
                assert(self@.minos =~= rest);
                let i = if self@.minos[0] is Some {
                    0int
                } else if self@.minos[1] is Some {
                    1int
                } else {
                    2int
                };
                assert(rest[i] is Some);
            }
        }

        self.start_placing_next();
    }

    /// Moves the mino that is being placed by `(dx, dy)`, if it fits on the
    /// board there. If it does not, the mino goes the other way for as long
    /// as it fits: it comes in again at the far edge of the board.
    pub fn move_placing(&mut self, dx: Coordinate, dy: Coordinate)
        ensures
            final(self)@.valid(),
            match old(self)@.placing {
                Some((idx, pos)) => final(self)@.placing matches Some((slot, to)) && slot == idx
                    && {
                    let mino = old(self)@.placing_mino();
                    if fits_at(mino, pos.0 + dx, pos.1 + dy) {
                        to.0 == pos.0 + dx && to.1 == pos.1 + dy
                    } else {
                        &&& exists|steps: nat|
                            slides_back(
                                mino,
                                cell_of(pos),
                                dx as int,
                                dy as int,
                                cell_of(to),
                                steps,
                            )
                        &&& !fits_at(mino, to.0 - dx, to.1 - dy)
                    }
                },
                None => final(self)@.placing is None,
            },
            final(self)@.board == old(self)@.board,
            final(self)@.minos == old(self)@.minos,
            final(self)@.score == old(self)@.score,
            final(self)@.last_points == old(self)@.last_points,
            final(self)@.lost == old(self)@.lost,
            final(self)@.dragging == old(self)@.dragging,
    {
        proof {
            use_type_invariant(&*self);
        }
        let placing = match self.placing {
            Some(placing) => placing,
            None => {
                return ;
            },
        };
        let mino = self.minos[placing.idx].unwrap();

        if let Some(new_pos) = try_step(mino, placing.pos, dx as i16, dy as i16) {
            self.placing = Some(Placing { idx: placing.idx, pos: new_pos });
        } else {
            let mut new_pos = placing.pos;
            let ghost mut steps: nat = 0;
            proof {
                lemma_fits_near(mino, new_pos);
            }
            let mut check = try_step(mino, new_pos, -(dx as i16), -(dy as i16));
            while check.is_some()
                invariant
                    mino@.len() > 0,
                    fits(mino, new_pos),
                    fits(mino, placing.pos),
                    !fits_at(mino, placing.pos.0 + dx, placing.pos.1 + dy),
                    slides_back(
                        mino,
                        cell_of(placing.pos),
                        dx as int,
                        dy as int,
                        cell_of(new_pos),
                        steps,
                    ),
                    match check {
                        Some(to) => to.0 == new_pos.0 - dx && to.1 == new_pos.1 - dy && fits(
                            mino,
                            to,
                        ),
                        None => !fits_at(mino, new_pos.0 - dx, new_pos.1 - dy),
                    },
                decreases slide_room(new_pos, dx as int, dy as int),
            {
                proof {
                    lemma_fits_near(mino, new_pos);
                    lemma_fits_near(mino, check.unwrap());
                    lemma_slides_back_more(
                        mino,
                        cell_of(placing.pos),
                        dx as int,
                        dy as int,
                        cell_of(new_pos),
                        steps,
                    );
                    steps = steps + 1;
                }
                new_pos = check.unwrap();
                check = try_step(mino, new_pos, -(dx as i16), -(dy as i16));
            }
            self.placing = Some(Placing { idx: placing.idx, pos: new_pos });
        }
    }

    /// Starts a drag of the mino that is being placed, with the mouse at
    /// `mouse_position`. A cell of the board is two columns of the screen
    /// wide. The drag remembers what has to be added to the mouse's
    /// position to get the mino's; a row that is too large or too small
    /// for a number of the machine is replaced by the nearest one.
    pub fn start_dragging(&mut self, mouse_position: (isize, isize))
        ensures
            final(self)@.valid(),
            final(self)@.dragging == match old(self)@.placing {
                Some((_, pos)) => Some(
                    (
                        pos.0 - halved(mouse_position.0 as int),
                        clipped(pos.1 - mouse_position.1, isize::MIN as int, isize::MAX as int),
                    ),
                ),
                None => old(self)@.dragging,
            },
            final(self)@.board == old(self)@.board,
            final(self)@.minos == old(self)@.minos,
            final(self)@.placing == old(self)@.placing,
            final(self)@.score == old(self)@.score,
            final(self)@.last_points == old(self)@.last_points,
            final(self)@.lost == old(self)@.lost,
    {
        proof {
            use_type_invariant(&*self);
        }
        let placing = match self.placing {
            Some(placing) => placing,
            None => {
                return ;
            },
        };

        // mouse.map + rel = mino
        // rel = mino - mouse.map
        self.dragging = Some(
            Dragging {
                relative_mino_pos: (
                    placing.pos.0 as isize - mouse_position.0 / 2,
                    saturating_difference(placing.pos.1 as isize, mouse_position.1),
                ),
            },
        );
    }

    /// Goes on with the drag, with the mouse at `mouse_position`: the mino
    /// that is being placed goes where the mouse is, and from there to the
    /// nearest position at which it fits on the board.
    pub fn continue_dragging(&mut self, mouse_position: (isize, isize))
        ensures
            final(self)@.valid(),
            final(self)@.placing == match (old(self)@.placing, old(self)@.dragging) {
                (Some((idx, _)), Some((x, y))) => {
                    let mino = old(self)@.placing_mino();
                    Some(
                        (
                            idx,
                            (
                                clamped(
                                    halved(mouse_position.0 as int) + x,
                                    mino.min_point().0 as int,
                                    mino.max_point().0 as int,
                                ) as Coordinate,
                                clamped(
                                    mouse_position.1 + y,
                                    mino.min_point().1 as int,
                                    mino.max_point().1 as int,
                                ) as Coordinate,
                            ),
                        ),
                    )
                },
                _ => old(self)@.placing,
            },
            final(self)@.board == old(self)@.board,
            final(self)@.minos == old(self)@.minos,
            final(self)@.score == old(self)@.score,
            final(self)@.last_points == old(self)@.last_points,
            final(self)@.lost == old(self)@.lost,
            final(self)@.dragging == old(self)@.dragging,
    {
        proof {
            use_type_invariant(&*self);
        }
        let placing = match self.placing {
            Some(placing) => placing,
            None => {
                return ;
            },
        };
        let dragging = match self.dragging {
            Some(dragging) => dragging,
            None => {
                return ;
            },
        };
        let mino = self.minos[placing.idx].unwrap();

        // mouse / 2 + rel = mino
        let new_mino_pos = (
            nearest_coordinate(saturating_sum(mouse_position.0 / 2, dragging.relative_mino_pos.0)),
            nearest_coordinate(saturating_sum(mouse_position.1, dragging.relative_mino_pos.1)),
        );
        let clamped_pos = Board::clamp_mino_position(mino, new_mino_pos);
        proof {
            mino.lemma_corners();
        }
        self.placing = Some(Placing { idx: placing.idx, pos: clamped_pos });
    }

    /// The cells that would be cleared if the mino that is being placed was
    /// put down where it is, as a board of their own: the cells of the units
    /// that would be full. The board is empty where the mino cannot be put down.
    pub fn would_remove_board(&self) -> (marked: Board)
        ensures
            forall|cell: (int, int)|
                #[trigger] marked@.contains(cell) <==> self@.can_finish() && covered(
                    self@.would_fill(),
                    self@.would_fill().len() as int,
                    cell,
                ),
    {
        proof {
            use_type_invariant(self);
        }
        let mut ret = Board::new();

        if let Some((mino, mino_position)) = self.placing() {
            if let Ok(would_remove) = self.board.find_would_remove(mino, mino_position) {
                proof {
                    lemma_filled_units_valid(self@.board@.union(placed(mino, mino_position)));
                }
                let mut i: usize = 0;
                while i < would_remove.len()
                    invariant
                        i <= would_remove@.len(),
                        forall|k: int|
                            0 <= k < would_remove@.len() ==> (#[trigger] would_remove@[k]).wf(),
                        forall|cell: (int, int)|
                            #[trigger] ret@.contains(cell) <==> covered(
                                would_remove@,
                                i as int,
                                cell,
                            ),
                    decreases would_remove@.len() - i,
                {
                    let unit = would_remove[i];
                    let positions = unit.iter();
                    let ghost before = ret@;
                    let mut k: usize = 0;
                    proof {
                        assert forall|cell: (int, int)| !among_first(unit, 0, cell) by {
                            lemma_among_first_next(unit, 0, cell);
                        }
                    }
                    while k < 9
                        invariant
                            k <= 9,
                            positions@.len() == 9,
                            forall|j: int|
                                0 <= j < 9 ==> (#[trigger] positions@[j]).wf() && positions@[j]@
                                    == unit.cells()[j],
                            forall|cell: (int, int)|
                                #[trigger] ret@.contains(cell) <==> before.contains(cell)
                                    || among_first(unit, k as int, cell),
                        decreases 9 - k,
                    {
                        let ghost earlier = ret@;
                        ret.set(positions[k], true);
                        proof {
                            assert(positions@[k as int]@ == unit.cells()[k as int]);
                            assert forall|cell: (int, int)|
                                #[trigger] ret@.contains(cell) <==> before.contains(cell)
                                    || among_first(unit, k + 1, cell) by {
                                lemma_among_first_next(unit, k as int, cell);
                                assert(earlier.contains(cell) <==> before.contains(cell)
                                    || among_first(unit, k as int, cell));
                            }
                        }
                        k += 1;
                    }
                    proof {
                        assert forall|cell: (int, int)|
                            #[trigger] ret@.contains(cell) <==> covered(
                                would_remove@,
                                i + 1,
                                cell,
                            ) by {
                            lemma_among_first_next(unit, 0, cell);
                            lemma_covered_next(would_remove@, i as int, cell);
                            assert(before.contains(cell) <==> covered(
                                would_remove@,
                                i as int,
                                cell,
                            ));
                        }
                    }
                    i += 1;
                }
            }
        }

        ret
    }

    /// How each cell of the board is shown, in the order of `Position::all`.
    pub fn cell_looks(&self) -> (looks: Vec<CellLook>)
        ensures
            looks@.len() == 81,
            forall|i: int| 0 <= i < 81 ==> #[trigger] looks@[i] == self@.look_of((i % 9, i / 9)),
    {
        proof {
            use_type_invariant(self);
        }
        let would_remove_board = self.would_remove_board();
        let placing = self.placing();
        let positions = Position::all();
        let mut looks: Vec<CellLook> = Vec::new();
        let mut i: usize = 0;
        while i < 81
            invariant
                i <= 81,
                self@.valid(),
                positions@.len() == 81,
                forall|k: int|
                    0 <= k < 81 ==> (#[trigger] positions@[k]).wf() && positions@[k]@ == (
                        k % 9,
                        k / 9,
                    ),
                placing == match self@.placing {
                    Some((idx, pos)) => Some((self@.minos[idx].unwrap(), pos)),
                    None => None,
                },
                forall|cell: (int, int)|
                    #[trigger] would_remove_board@.contains(cell) <==> self@.would_be_removed(cell),
                looks@.len() == i,
                forall|k: int| 0 <= k < i ==> #[trigger] looks@[k] == self@.look_of((k % 9, k / 9)),
            decreases 81 - i,
        {
            let position = positions[i];
            let ghost cell = position@;
            let occupied_on_board = self.occupied(position);
            let occupied_by_placing = match placing {
                Some((mino, mino_pos)) => {
                    proof {
                        lemma_fits_near(mino, mino_pos);
                        position.lemma_on_board();
                    }
                    let (x, y) = position.to_xy();
                    match mino.at(x - mino_pos.0, y - mino_pos.1) {
                        Some(filled) => filled,
                        None => {
                            proof {
                                mino.lemma_cells_in_container();
                            }
                            false
                        },
                    }
                },
                None => false,
            };
            let would_be_removed = would_remove_board.occupied(position);
            proof {
                assert(occupied_by_placing == self@.under_mino(cell));
                assert(would_be_removed == self@.would_be_removed(cell));
                if would_be_removed {
                    let filled = self@.would_fill();
                    let occupied = self@.board@.union(
                        placed(self@.placing_mino(), self@.placing.unwrap().1),
                    );
                    lemma_filled_units_valid(occupied);
                    let k = choose|k: int| 0 <= k < filled.len() && (#[trigger] filled[k]).covers(cell);
                    let j = choose|j: int|
                        0 <= j < filled[k].cells().len() && filled[k].cells()[j] == cell;
                    assert(filled[k].cells().len() == 9);
                    assert(occupied.contains(filled[k].cells()[j]));
                }
            }
            let look = match (occupied_by_placing, occupied_on_board, would_be_removed) {
                (false, false, false) => CellLook::Empty,
                (false, false, true) => unreached(),
                (false, true, false) => CellLook::Filled,
                (false, true, true) => CellLook::WouldBeRemoved,
                (true, false, false) => CellLook::WouldBeFilled,
                (true, false, true) => CellLook::WouldBeFilledAndRemoved,
                (true, true, false) => CellLook::WouldConflict,
                (true, true, true) => unreached(),
            };
            looks.push(look);
            i += 1;
        }
        looks
    }

    /// What is known of the mino of the slot `mino_idx`, if the slot holds one.
    pub fn mino_state(&self, mino_idx: usize) -> (state: Option<MinoState>)
        requires
            mino_idx < TILE_BATCH_SIZE,
        ensures
            state == match self@.minos[mino_idx as int] {
                Some(mino) => Some(
                    (MinoState {
                        mino,
                        can_place: self@.board.can_place_anywhere(mino),
                        is_placing: self@.placing matches Some((idx, _)) && idx == mino_idx,
                    }),
                ),
                None => None,
            },
    {
        proof {
            use_type_invariant(self);
        }
        let mino = match self.minos[mino_idx] {
            Some(mino) => mino,
            None => {
                return None;
            },
        };
        let can_place = self.board.can_place_anywhere(mino);
        let is_placing = match self.placing {
            Some(placing) => placing.idx == mino_idx,
            None => false,
        };
        Some(MinoState { mino, can_place, is_placing })
    }
}

impl MinoState {
    /// How the cell `(x, y)` of the mino's container is shown among the
    /// minos on offer, or `None` if it is not a cell of the container: an
    /// empty cell as a free one, a filled cell as a conflict where the
    /// mino cannot be placed, else marked where the mino is being placed,
    /// else as an occupied one.
    pub fn cell_look(&self, x: Coordinate, y: Coordinate) -> (look: Option<CellLook>)
        ensures
            look == if !in_container((x as int, y as int)) {
                None
            } else if !self.mino@.contains((x as int, y as int)) {
                Some(CellLook::Empty)
            } else if !self.can_place {
                Some(CellLook::WouldConflict)
            } else if self.is_placing {
                Some(CellLook::WouldBeFilledAndRemoved)
            } else {
                Some(CellLook::Filled)
            },
    {
        match self.mino.at(x, y) {
            None => None,
            Some(filled) => Some(
                if !filled {
                    CellLook::Empty
                } else if !self.can_place {
                    CellLook::WouldConflict
                } else if self.is_placing {
                    CellLook::WouldBeFilledAndRemoved
                } else {
                    CellLook::Filled
                },
            ),
        }
    }
}

} // verus!
