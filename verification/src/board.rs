//! The board: its cells, its occupancy bitmap, its 3×3 boxes and the units
//! that can be cleared.

use vstd::prelude::*;
use vstd::std_specs::convert::FromSpecImpl;
use crate::bits::{
    assign_bit,
    bitmap_bit,
    lemma_bitmap_assign,
    lemma_nonzero_byte_has_bit,
    lemma_zero_byte,
};
use crate::util::{answers, grid_fmt, grid_text, Coordinate};

verus! {

/// The length of an edge of the board.
pub const BOARD_SIZE: i8 = 9;

/// The number of cells on the board.
pub const NUM_SQUARES: i8 = BOARD_SIZE * BOARD_SIZE;

/// The number of bytes that hold one bit per cell of the board:
/// `min_bytes_for_bits` of the number of cells.
pub const BOARD_BYTES: usize = 11;

/// Whether `(x, y)` is a cell of the board.
pub open spec fn on_board(cell: (int, int)) -> bool {
    0 <= cell.0 < 9 && 0 <= cell.1 < 9
}

/// One cell of the board, held as the packed index `y * 9 + x`.
///
/// Its view is the cell `(x, y)`.
#[derive(Debug, Clone, Copy, PartialEq, Eq, Hash, Structural)]
pub struct Position {
    index: u8,
}

impl View for Position {
    type V = (int, int);

    closed spec fn view(&self) -> (int, int) {
        (self.index as int % 9, self.index as int / 9)
    }
}

impl Position {
    /// The index decodes to a cell of the board.
    #[verifier::type_invariant]
    pub closed spec fn wf(self) -> bool {
        self.index < 81
    }

    /// The position of a cell of the board.
    pub closed spec fn at_cell(cell: (int, int)) -> Self {
        Position { index: (cell.1 * 9 + cell.0) as u8 }
    }

    /// What `new` returns.
    pub open spec fn spec_new(x: Coordinate, y: Coordinate) -> Option<Self> {
        if on_board((x as int, y as int)) {
            Some(Self::at_cell((x as int, y as int)))
        } else {
            None
        }
    }

    /// What `x` returns.
    pub open spec fn spec_x(self) -> Coordinate {
        self@.0 as Coordinate
    }

    /// What `y` returns.
    pub open spec fn spec_y(self) -> Coordinate {
        self@.1 as Coordinate
    }

    /// A valid position lies on the board, and is the position of its cell.
    pub proof fn lemma_on_board(self)
        requires
            self.wf(),
        ensures
            on_board(self@),
            self == Self::at_cell(self@),
    {
    }

    /// Every cell of the board has a valid position.
    pub proof fn lemma_at_cell(cell: (int, int))
        requires
            on_board(cell),
        ensures
            Self::at_cell(cell).wf(),
            Self::at_cell(cell)@ == cell,
    {
    }

    /// The position of the cell `(x, y)`, or `None` if the cell is not on the board.
    #[verifier::when_used_as_spec(spec_new)]
    pub fn new(x: Coordinate, y: Coordinate) -> (r: Option<Self>)
        ensures
            r == Self::spec_new(x, y),
            r is Some <==> on_board((x as int, y as int)),
            r matches Some(p) ==> p.wf() && p@ == (x as int, y as int),
    {
        if x < 0 || x >= BOARD_SIZE || y < 0 || y >= BOARD_SIZE {
            None
        } else {
            Some(Self::new_unchecked(x, y))
        }
    }

    /// The position of the cell `(x, y)`, which the caller knows to be on the board.
    pub fn new_unchecked(x: Coordinate, y: Coordinate) -> (p: Self)
        requires
            on_board((x as int, y as int)),
        ensures
            Some(p) == Self::spec_new(x, y),
            p.wf(),
            p@ == (x as int, y as int),
    {
        Self { index: (y * BOARD_SIZE + x) as u8 }
    }

    /// The column of the cell.
    #[verifier::when_used_as_spec(spec_x)]
    pub fn x(self) -> (x: Coordinate)
        ensures
            x == self.spec_x(),
            x == self@.0,
    {
        proof {
            use_type_invariant(&self);
        }
        (self.index % 9) as i8
    }

    /// The row of the cell.
    #[verifier::when_used_as_spec(spec_y)]
    pub fn y(self) -> (y: Coordinate)
        ensures
            y == self.spec_y(),
            y == self@.1,
    {
        proof {
            use_type_invariant(&self);
        }
        (self.index / 9) as i8
    }

    /// The cell as `(x, y)`.
    pub fn to_xy(self) -> (xy: (Coordinate, Coordinate))
        ensures
            (xy.0 as int, xy.1 as int) == self@,
    {
        (self.x(), self.y())
    }

    /// Every position of the board, row by row.
    pub fn all() -> (all: Vec<Self>)
        ensures
            all@.len() == 81,
            forall|i: int| 0 <= i < 81 ==> (#[trigger] all@[i]).wf() && all@[i]@ == (i % 9, i / 9),
    {
        let mut all: Vec<Self> = Vec::new();
        let mut index: i8 = 0;
        while index < NUM_SQUARES
            invariant
                0 <= index <= 81,
                all@.len() == index,
                forall|i: int|
                    0 <= i < index ==> (#[trigger] all@[i]).wf() && all@[i]@ == (i % 9, i / 9),
            decreases 81 - index,
        {
            all.push(Position { index: index as u8 });
            index += 1;
        }
        all
    }
}

/// Constructing a position from a cell of the board and reading its
/// coordinates gives the cell back.
pub proof fn lemma_position_round_trips(x: Coordinate, y: Coordinate)
    requires
        on_board((x as int, y as int)),
    ensures
        Position::new(x, y) is Some,
        Position::new(x, y).unwrap().x() == x,
        Position::new(x, y).unwrap().y() == y,
{
}

/// Which cells of the board are occupied: one bit per cell, packed into bytes.
///
/// Its view is the set of occupied cells.
#[derive(Debug, Clone, Copy)]
pub struct Board {
    squares: [u8; BOARD_BYTES],
}

impl View for Board {
    type V = Set<(int, int)>;

    closed spec fn view(&self) -> Set<(int, int)> {
        Set::new(|cell: (int, int)| on_board(cell) && bitmap_bit(self.squares@, cell.1 * 9 + cell.0))
    }
}

impl Board {
    /// The bits that stand for no cell are clear.
    #[verifier::type_invariant]
    pub closed spec fn wf(self) -> bool {
        forall|i: int| 81 <= i < 88 ==> !bitmap_bit(self.squares@, i)
    }

    /// Only cells of the board are occupied.
    pub proof fn lemma_cells_on_board(self)
        ensures
            forall|cell: (int, int)| #[trigger] self@.contains(cell) ==> on_board(cell),
    {
    }

    /// A board on which no cell is occupied.
    pub fn new() -> (board: Self)
        ensures
            board@ == Set::<(int, int)>::empty(),
    {
        let squares: [u8; BOARD_BYTES] = [0; BOARD_BYTES];
        proof {
            assert forall|i: int| 0 <= i < 88 implies !bitmap_bit(squares@, i) by {
                lemma_zero_byte(squares@[i / 8]);
            }
        }
        let board = Self { squares };
        assert(board@ =~= Set::<(int, int)>::empty());
        board
    }

    /// Whether the cell at `position` is occupied.
    pub fn occupied(&self, position: Position) -> (occupied: bool)
        ensures
            occupied == self@.contains(position@),
    {
        proof {
            use_type_invariant(&position);
        }
        let byte = position.index / 8;
        let bit = position.index % 8;
        (self.squares[byte as usize] & (1 << bit)) > 0
    }

    /// Makes the cell at `position` occupied or free, and changes no other cell.
    pub fn set(&mut self, position: Position, value: bool)
        ensures
            final(self)@ == if value {
                old(self)@.insert(position@)
            } else {
                old(self)@.remove(position@)
            },
    {
        proof {
            use_type_invariant(&position);
            use_type_invariant(&*self);
        }
        let byte = (position.index / 8) as usize;
        let bit = position.index % 8;
        let flag: u8 = if value { 1 } else { 0 };
        let updated = self.squares[byte] & !(1 << bit) | (flag << bit);
        proof {
            let before = self.squares@;
            let after = before.update(byte as int, updated);
            assert(updated == assign_bit(before[byte as int], bit, value));
            assert forall|i: int| 0 <= i < 88 implies bitmap_bit(after, i) == (if i
                == position.index {
                value
            } else {
                bitmap_bit(before, i)
            }) by {
                lemma_bitmap_assign(before, position.index as int, value, i);
            }
        }
        self.squares[byte] = updated;
        proof {
            let target = if value {
                old(self)@.insert(position@)
            } else {
                old(self)@.remove(position@)
            };
            assert forall|cell: (int, int)| self@.contains(cell) == target.contains(cell) by {
                if on_board(cell) {
                    let i = cell.1 * 9 + cell.0;
                    assert(0 <= i < 81);
                    assert(i == position.index <==> cell == position@);
                }
            }
            assert(self@ =~= target);
        }
    }

    /// The occupancy of the board as a grid: `grid()[y][x]` says whether the
    /// cell `(x, y)` is occupied.
    pub open spec fn grid(self) -> Seq<Seq<bool>> {
        Seq::new(9, |y: int| Seq::new(9, |x: int| self@.contains((x, y))))
    }

    /// The text that shows the board: its name and its nine rows, a `'1'`
    /// for each occupied cell and a `'0'` for each free one.
    pub fn debug_string(&self) -> (text: String)
        ensures
            text@ == grid_text("Board"@, self.grid()),
    {
        let get = |x: usize, y: usize| -> (filled: bool)
            requires
                x < 9 && y < 9,
            ensures
                filled == self@.contains((x as int, y as int)),
            { self.occupied(Position::new_unchecked(x as Coordinate, y as Coordinate)) };
        let text = grid_fmt("Board", 9, 9, get);
        proof {
            let grid = choose|grid: Seq<Seq<bool>>|
                answers(get, 9, 9, grid) && text@ == #[trigger] grid_text("Board"@, grid);
            assert forall|y: int| 0 <= y < 9 implies grid[y] =~= self.grid()[y] by {
                assert forall|x: int| 0 <= x < 9 implies grid[y][x] == self.grid()[y][x] by {
                    let column = x as usize;
                    let row = y as usize;
                    assert(call_ensures(get, (column, row), grid[row as int][column as int]));
                }
            }
            assert(grid =~= self.grid());
        }
        text
    }

    /// Whether no cell is occupied.
    pub fn is_empty(&self) -> (empty: bool)
        ensures
            empty == (self@ == Set::<(int, int)>::empty()),
    {
        proof {
            use_type_invariant(self);
        }
        let mut k: usize = 0;
        while k < BOARD_BYTES
            invariant
                k <= 11,
                self.wf(),
                forall|j: int| 0 <= j < k ==> self.squares@[j] == 0,
            decreases 11 - k,
        {
            if self.squares[k] != 0 {
                proof {
                    let bit = lemma_nonzero_byte_has_bit(self.squares@[k as int]);
                    let i = 8 * k + bit;
                    assert(bitmap_bit(self.squares@, i));
                    assert(i < 81);
                    assert(self@.contains((i % 9, i / 9)));
                }
                return false;
            }
            k += 1;
        }
        proof {
            assert forall|i: int| 0 <= i < 88 implies !bitmap_bit(self.squares@, i) by {
                lemma_zero_byte(self.squares@[i / 8]);
            }
            assert(self@ =~= Set::<(int, int)>::empty());
        }
        true
    }
}

impl Default for Board {
    fn default() -> (board: Self)
        ensures
            board@ == Set::<(int, int)>::empty(),
    {
        Board::new()
    }
}

/// One of the nine 3×3 boxes that tile the board, numbered row by row.
///
/// Its view is that number.
#[derive(Debug, Clone, Copy, PartialEq, Eq, Hash, Structural)]
pub struct SquareIndex {
    index: u8,
}

impl View for SquareIndex {
    type V = int;

    closed spec fn view(&self) -> int {
        self.index as int
    }
}

impl SquareIndex {
    /// The number names one of the nine boxes.
    #[verifier::type_invariant]
    pub closed spec fn wf(self) -> bool {
        self.index < 9
    }

    /// The box with the number `n`.
    pub closed spec fn nth(n: int) -> Self {
        SquareIndex { index: n as u8 }
    }

    /// The `k`-th cell of the box, counted row by row inside the box.
    pub open spec fn cell(self, k: int) -> (int, int) {
        (3 * (self@ % 3) + k % 3, 3 * (self@ / 3) + k / 3)
    }

    /// The box with a number below nine is valid and has that number.
    pub proof fn lemma_nth(n: int)
        requires
            0 <= n < 9,
        ensures
            Self::nth(n).wf(),
            Self::nth(n)@ == n,
    {
    }

    /// The position of the top left cell of the box.
    pub fn top_left(self) -> (corner: Position)
        ensures
            corner.wf(),
            corner@ == self.cell(0),
    {
        proof {
            use_type_invariant(&self);
        }
        let squares_per_row: u8 = 3;
        let horizontal_between_squares: u8 = 3;
        let vertical_between_squares: u8 = 27;

        let i_y = self.index / squares_per_row * vertical_between_squares;
        let i_x = self.index % squares_per_row * horizontal_between_squares;
        Position { index: i_y + i_x }
    }

    /// The positions of the nine cells of the box, row by row.
    pub fn all_within(self) -> (within: Vec<Position>)
        ensures
            within@.len() == 9,
            forall|k: int|
                0 <= k < 9 ==> (#[trigger] within@[k]).wf() && within@[k]@ == self.cell(k),
    {
        proof {
            use_type_invariant(&self);
        }
        let top_left = self.top_left().index;
        let offsets: [u8; 9] = [0, 1, 2, 9, 10, 11, 18, 19, 20];
        let mut within: Vec<Position> = Vec::new();
        let mut k: usize = 0;
        while k < 9
            invariant
                k <= 9,
                self.wf(),
                top_left == 27 * (self.index / 3) + 3 * (self.index % 3),
                offsets@ == seq![0u8, 1, 2, 9, 10, 11, 18, 19, 20],
                within@.len() == k,
                forall|j: int|
                    0 <= j < k ==> (#[trigger] within@[j]).wf() && within@[j]@ == self.cell(j),
            decreases 9 - k,
        {
            assert(offsets@[k as int] == 9 * (k / 3) + k % 3);
            within.push(Position { index: top_left + offsets[k] });
            k += 1;
        }
        within
    }

    /// The nine boxes, in the order of their numbers.
    pub fn all() -> (all: Vec<Self>)
        ensures
            all@.len() == 9,
            forall|n: int| 0 <= n < 9 ==> (#[trigger] all@[n]).wf() && all@[n] == Self::nth(n),
    {
        let mut all: Vec<Self> = Vec::new();
        let mut index: u8 = 0;
        while index < 9
            invariant
                index <= 9,
                all@.len() == index,
                forall|n: int| 0 <= n < index ==> (#[trigger] all@[n]).wf() && all@[n] == Self::nth(n),
            decreases 9 - index,
        {
            all.push(SquareIndex { index });
            index += 1;
        }
        all
    }
}

/// One unit of the board that is cleared when all its cells are occupied:
/// a row, a column or a box.
#[derive(Debug, Clone, Copy)]
pub enum WouldRemove {
    /// The row `y`.
    Horizontal { y: Coordinate },
    /// The column `x`.
    Vertical { x: Coordinate },
    /// The box `index`.
    Square {
        /// Row-major.
        index: SquareIndex,
    },
}

impl WouldRemove {
    /// The unit lies on the board.
    pub open spec fn wf(self) -> bool {
        match self {
            WouldRemove::Horizontal { y } => 0 <= y < 9,
            WouldRemove::Vertical { x } => 0 <= x < 9,
            WouldRemove::Square { index } => index.wf(),
        }
    }

    /// The nine cells of the unit, in order: a row from left to right, a
    /// column from top to bottom, a box row by row.
    pub open spec fn cells(self) -> Seq<(int, int)> {
        match self {
            WouldRemove::Horizontal { y } => Seq::new(9, |k: int| (k, y as int)),
            WouldRemove::Vertical { x } => Seq::new(9, |k: int| (x as int, k)),
            WouldRemove::Square { index } => Seq::new(9, |k: int| index.cell(k)),
        }
    }

    /// Whether the cell belongs to the unit.
    pub open spec fn covers(self, cell: (int, int)) -> bool {
        self.cells().contains(cell)
    }

    /// The positions of the nine cells of the unit, in order.
    pub fn iter(self) -> (positions: Vec<Position>)
        requires
            self.wf(),
        ensures
            positions@.len() == 9,
            forall|k: int|
                0 <= k < 9 ==> (#[trigger] positions@[k]).wf() && positions@[k]@ == self.cells()[k],
    {
        match self {
            WouldRemove::Horizontal { y } => {
                let mut positions: Vec<Position> = Vec::new();
                let mut x: Coordinate = 0;
                while x < BOARD_SIZE
                    invariant
                        0 <= x <= 9,
                        0 <= y < 9,
                        positions@.len() == x,
                        forall|k: int|
                            0 <= k < x ==> (#[trigger] positions@[k]).wf() && positions@[k]@ == (
                                k,
                                y as int,
                            ),
                    decreases 9 - x,
                {
                    positions.push(Position::new_unchecked(x, y));
                    x += 1;
                }
                positions
            },
            WouldRemove::Vertical { x } => {
                let mut positions: Vec<Position> = Vec::new();
                let mut y: Coordinate = 0;
                while y < BOARD_SIZE
                    invariant
                        0 <= y <= 9,
                        0 <= x < 9,
                        positions@.len() == y,
                        forall|k: int|
                            0 <= k < y ==> (#[trigger] positions@[k]).wf() && positions@[k]@ == (
                                x as int,
                                k,
                            ),
                    decreases 9 - y,
                {
                    positions.push(Position::new_unchecked(x, y));
                    y += 1;
                }
                positions
            },
            WouldRemove::Square { index } => index.all_within(),
        }
    }
}

/// A cell that was asked for lies outside the board.
#[derive(Debug, Clone, Copy)]
pub struct OutOfBounds;

/// Why a mino cannot be placed.
#[derive(Debug, Clone, Copy)]
pub enum PlaceError {
    /// A cell of the mino would lie outside the board.
    OutOfBounds,
    /// A cell of the mino would lie on an occupied cell.
    Conflicts,
}

impl From<OutOfBounds> for PlaceError {
    fn from(_error: OutOfBounds) -> (error: Self) {
        PlaceError::OutOfBounds
    }
}

impl FromSpecImpl<OutOfBounds> for PlaceError {
    open spec fn obeys_from_spec() -> bool {
        true
    }

    open spec fn from_spec(_error: OutOfBounds) -> Self {
        PlaceError::OutOfBounds
    }
}

} // verus!
