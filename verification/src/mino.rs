//! Minos: the pieces of the game, each a set of cells inside a 5×5 container.

use vstd::prelude::*;
use vstd::relations::injective_on;
use vstd::set_lib::lemma_map_size;
use vstd::std_specs::cmp::PartialEqSpecImpl;
use crate::bits::{
    assign_bit,
    bitmap_bit,
    byte_bit,
    lemma_bit_count_bound,
    lemma_bitmap_assign,
    lemma_count_byte,
    lemma_count_clear_tail,
    lemma_equal_bytes,
    lemma_pack_bits,
    lemma_zero_byte,
    pack_bits,
    set_bits_below,
};
use crate::seq_facts::{lemma_filter_members, lemma_filter_take_next, lemma_filter_take_none};
use crate::util::{answers, grid_fmt, grid_text, Coordinate};

verus! {

/// The length of an edge of a mino's container.
pub const MINO_SIZE: i8 = 5;

/// The number of cells in a mino's container.
pub const NUM_SQUARES_IN_MINO: i8 = MINO_SIZE * MINO_SIZE;

/// The number of bytes that hold one bit per cell of the container:
/// `min_bytes_for_bits` of the number of cells.
pub const MINO_BYTES: usize = 4;

/// Whether `(x, y)` is a cell of the container.
pub open spec fn in_container(cell: (int, int)) -> bool {
    0 <= cell.0 < 5 && 0 <= cell.1 < 5
}

/// Whether a picture of five rows marks the cell `(x, y)`: `rows[y][x]` stands for it.
pub open spec fn row_marks(rows: [[bool; 5]; 5], x: int, y: int) -> bool {
    rows@[y]@[x]
}

/// The cells that a picture of five rows marks.
pub open spec fn cells_of_rows(rows: [[bool; 5]; 5]) -> Set<(int, int)> {
    Set::new(|cell: (int, int)| in_container(cell) && row_marks(rows, cell.0, cell.1))
}

/// The cells of `cells` that lie in the container.
pub open spec fn within_container(cells: Set<(int, int)>) -> Set<(int, int)> {
    Set::new(|cell: (int, int)| in_container(cell) && cells.contains(cell))
}

/// The cells mirrored left to right: the cell `(x, y)` is taken from `(4 - x, y)`.
pub open spec fn flipped_horizontally(cells: Set<(int, int)>) -> Set<(int, int)> {
    Set::new(|cell: (int, int)| in_container(cell) && cells.contains((4 - cell.0, cell.1)))
}

/// The cells mirrored top to bottom: the cell `(x, y)` is taken from `(x, 4 - y)`.
pub open spec fn flipped_vertically(cells: Set<(int, int)>) -> Set<(int, int)> {
    Set::new(|cell: (int, int)| in_container(cell) && cells.contains((cell.0, 4 - cell.1)))
}

/// The cells turned a quarter clockwise: the cell `(x, y)` is taken from `(y, 4 - x)`.
pub open spec fn rotated_cw_90(cells: Set<(int, int)>) -> Set<(int, int)> {
    Set::new(|cell: (int, int)| in_container(cell) && cells.contains((cell.1, 4 - cell.0)))
}

/// The cells turned a quarter counterclockwise: the cell `(x, y)` is taken from `(4 - y, x)`.
pub open spec fn rotated_ccw_90(cells: Set<(int, int)>) -> Set<(int, int)> {
    Set::new(|cell: (int, int)| in_container(cell) && cells.contains((4 - cell.1, cell.0)))
}

/// The cells turned half way round: the cell `(x, y)` is taken from `(4 - x, 4 - y)`.
pub open spec fn rotated_180(cells: Set<(int, int)>) -> Set<(int, int)> {
    Set::new(|cell: (int, int)| in_container(cell) && cells.contains((4 - cell.0, 4 - cell.1)))
}

/// Whether `point` holds the least column and the least row that `cells` reach.
pub open spec fn is_min_point(cells: Set<(int, int)>, point: (int, int)) -> bool {
    &&& exists|cell: (int, int)| cells.contains(cell) && cell.0 == point.0
    &&& exists|cell: (int, int)| cells.contains(cell) && cell.1 == point.1
    &&& forall|cell: (int, int)| cells.contains(cell) ==> point.0 <= cell.0 && point.1 <= cell.1
}

/// Whether `point` holds the greatest column and the greatest row that `cells` reach.
pub open spec fn is_max_point(cells: Set<(int, int)>, point: (int, int)) -> bool {
    &&& exists|cell: (int, int)| cells.contains(cell) && cell.0 == point.0
    &&& exists|cell: (int, int)| cells.contains(cell) && cell.1 == point.1
    &&& forall|cell: (int, int)| cells.contains(cell) ==> cell.0 <= point.0 && cell.1 <= point.1
}

/// Whether the column `x` of the container holds one of the cells.
pub open spec fn column_filled_at(cells: Set<(int, int)>, x: int) -> bool {
    exists|y: int| 0 <= y < 5 && cells.contains((x, y))
}

/// Whether the row `y` of the container holds one of the cells.
pub open spec fn row_filled_at(cells: Set<(int, int)>, y: int) -> bool {
    exists|x: int| 0 <= x < 5 && cells.contains((x, y))
}

/// The cell that an offset names.
pub open spec fn cell_of(offset: (Coordinate, Coordinate)) -> (int, int) {
    (offset.0 as int, offset.1 as int)
}

/// The offsets of all cells of the container, row by row.
pub open spec fn container_offsets() -> Seq<(Coordinate, Coordinate)> {
    Seq::new(25, |i: int| ((i % 5) as Coordinate, (i / 5) as Coordinate))
}

/// The cells of the shapes of the catalog, in the catalog's order.
pub open spec fn catalog() -> Seq<Set<(int, int)>> {
    seq![
        // An L three cells tall and three wide.
        set![(1int, 1int), (1int, 2int), (1int, 3int), (2int, 3int), (3int, 3int)],
        // An L two cells tall and three wide.
        set![(1int, 1int), (1int, 2int), (2int, 2int), (3int, 2int)],
        // An L two cells tall and two wide.
        set![(2int, 1int), (2int, 2int), (3int, 2int)],
        // A single cell.
        set![(2int, 2int)],
        // A square of two by two cells.
        set![(2int, 2int), (3int, 2int), (2int, 3int), (3int, 3int)],
        // Two cells on a diagonal.
        set![(2int, 2int), (3int, 3int)],
        // Three cells on a diagonal.
        set![(1int, 1int), (2int, 2int), (3int, 3int)],
        // A bar of two cells.
        set![(1int, 2int), (2int, 2int)],
        // A bar of three cells.
        set![(1int, 2int), (2int, 2int), (3int, 2int)],
        // A bar of four cells.
        set![(0int, 2int), (1int, 2int), (2int, 2int), (3int, 2int)],
        // A bar of five cells.
        set![(0int, 2int), (1int, 2int), (2int, 2int), (3int, 2int), (4int, 2int)],
        // A C two cells wide and three tall.
        set![(1int, 1int), (2int, 1int), (1int, 2int), (1int, 3int), (2int, 3int)],
        // An S, or a Z.
        set![(1int, 1int), (2int, 1int), (2int, 2int), (3int, 2int)],
        // A T two cells tall.
        set![(1int, 1int), (2int, 1int), (3int, 1int), (2int, 2int)],
        // A T three cells tall.
        set![(1int, 1int), (2int, 1int), (3int, 1int), (2int, 2int), (2int, 3int)],
        // A plus.
        set![(2int, 1int), (1int, 2int), (2int, 2int), (3int, 2int), (2int, 3int)],
    ]
}

/// An empty cell in the picture of a shape.
const O: bool = false;

/// A filled cell in the picture of a shape.
const X: bool = true;

/// Whether bit `i` of a mino's bitmap stands for a cell of `cells`.
spec fn wanted_bit(cells: Set<(int, int)>, i: int) -> bool {
    i < 25 && cells.contains((i % 5, i / 5))
}

/// The byte of a mino's bitmap that holds the bits `8 * k` to `8 * k + 7` for `cells`.
spec fn wanted_byte(cells: Set<(int, int)>, k: int) -> u8 {
    pack_bits(
        wanted_bit(cells, 8 * k),
        wanted_bit(cells, 8 * k + 1),
        wanted_bit(cells, 8 * k + 2),
        wanted_bit(cells, 8 * k + 3),
        wanted_bit(cells, 8 * k + 4),
        wanted_bit(cells, 8 * k + 5),
        wanted_bit(cells, 8 * k + 6),
        wanted_bit(cells, 8 * k + 7),
    )
}

proof fn lemma_wanted_byte(cells: Set<(int, int)>, k: int, j: int)
    requires
        0 <= j < 8,
    ensures
        byte_bit(wanted_byte(cells, k), j as u8) == wanted_bit(cells, 8 * k + j),
{
    lemma_pack_bits(
        wanted_bit(cells, 8 * k),
        wanted_bit(cells, 8 * k + 1),
        wanted_bit(cells, 8 * k + 2),
        wanted_bit(cells, 8 * k + 3),
        wanted_bit(cells, 8 * k + 4),
        wanted_bit(cells, 8 * k + 5),
        wanted_bit(cells, 8 * k + 6),
        wanted_bit(cells, 8 * k + 7),
    );
}

/// One piece: which cells of its 5×5 container it fills, one bit per cell,
/// packed into bytes row by row.
///
/// Its view is the set of filled cells `(x, y)`.
#[derive(Debug, Clone, Copy, Eq, Hash)]
pub struct Mino {
    bits: [u8; MINO_BYTES],
}

impl View for Mino {
    type V = Set<(int, int)>;

    closed spec fn view(&self) -> Set<(int, int)> {
        Set::new(
            |cell: (int, int)| in_container(cell) && bitmap_bit(self.bits@, cell.1 * 5 + cell.0),
        )
    }
}

impl PartialEq for Mino {
    /// Two minos are equal when their bitmaps are.
    fn eq(&self, other: &Self) -> (equal: bool) {
        let equal = self.bits[0] == other.bits[0] && self.bits[1] == other.bits[1] && self.bits[2]
            == other.bits[2] && self.bits[3] == other.bits[3];
        proof {
            if equal {
                assert(self.bits@ =~= other.bits@);
                assert(self.bits =~= other.bits);
            }
        }
        equal
    }
}

impl PartialEqSpecImpl for Mino {
    open spec fn obeys_eq_spec() -> bool {
        true
    }

    open spec fn eq_spec(&self, other: &Self) -> bool {
        *self == *other
    }
}

impl Mino {
    /// The bits that stand for no cell are clear.
    #[verifier::type_invariant]
    pub closed spec fn wf(self) -> bool {
        forall|i: int| 25 <= i < 32 ==> !bitmap_bit(self.bits@, i)
    }

    /// Only cells of the container are filled.
    pub proof fn lemma_cells_in_container(self)
        ensures
            forall|cell: (int, int)| #[trigger] self@.contains(cell) ==> in_container(cell),
    {
    }

    /// Valid minos that fill the same cells are the same mino.
    pub proof fn lemma_same_cells(self, other: Self)
        requires
            self.wf(),
            other.wf(),
            self@ == other@,
        ensures
            self == other,
    {
        assert forall|i: int| 0 <= i < 32 implies bitmap_bit(self.bits@, i) == bitmap_bit(
            other.bits@,
            i,
        ) by {
            if i < 25 {
                let cell = (i % 5, i / 5);
                assert(in_container(cell) && cell.1 * 5 + cell.0 == i);
                assert(self@.contains(cell) == bitmap_bit(self.bits@, i));
                assert(other@.contains(cell) == bitmap_bit(other.bits@, i));
            } else {
                assert(!bitmap_bit(self.bits@, i));
                assert(!bitmap_bit(other.bits@, i));
            }
        }
        assert forall|k: int| 0 <= k < 4 implies self.bits@[k] == other.bits@[k] by {
            assert(bitmap_bit(self.bits@, 8 * k) == bitmap_bit(other.bits@, 8 * k));
            assert(bitmap_bit(self.bits@, 8 * k + 1) == bitmap_bit(other.bits@, 8 * k + 1));
            assert(bitmap_bit(self.bits@, 8 * k + 2) == bitmap_bit(other.bits@, 8 * k + 2));
            assert(bitmap_bit(self.bits@, 8 * k + 3) == bitmap_bit(other.bits@, 8 * k + 3));
            assert(bitmap_bit(self.bits@, 8 * k + 4) == bitmap_bit(other.bits@, 8 * k + 4));
            assert(bitmap_bit(self.bits@, 8 * k + 5) == bitmap_bit(other.bits@, 8 * k + 5));
            assert(bitmap_bit(self.bits@, 8 * k + 6) == bitmap_bit(other.bits@, 8 * k + 6));
            assert(bitmap_bit(self.bits@, 8 * k + 7) == bitmap_bit(other.bits@, 8 * k + 7));
            lemma_equal_bytes(self.bits@[k], other.bits@[k]);
        }
        assert(self.bits@ =~= other.bits@);
        assert(self.bits =~= other.bits);
    }

    /// The filled cells among the first `n` cells of the container, row by row.
    closed spec fn cells_below(self, n: int) -> Set<(int, int)> {
        Set::new(
            |cell: (int, int)|
                in_container(cell) && cell.1 * 5 + cell.0 < n && bitmap_bit(
                    self.bits@,
                    cell.1 * 5 + cell.0,
                ),
        )
    }

    /// The filled cells among the first `n` are as many as the bits set among the first `n`.
    proof fn lemma_cells_below(self, n: int)
        requires
            0 <= n <= 25,
        ensures
            self.cells_below(n).finite(),
            self.cells_below(n).len() == set_bits_below(self.bits@, n),
        decreases n,
    {
        if n == 0 {
            assert(self.cells_below(0) =~= Set::<(int, int)>::empty());
        } else {
            self.lemma_cells_below(n - 1);
            let cell = ((n - 1) % 5, (n - 1) / 5);
            assert(in_container(cell) && cell.1 * 5 + cell.0 == n - 1);
            if bitmap_bit(self.bits@, n - 1) {
                assert(self.cells_below(n) =~= self.cells_below(n - 1).insert(cell));
            } else {
                assert(self.cells_below(n) =~= self.cells_below(n - 1));
            }
        }
    }

    /// A mino fills finitely many cells: no more than its container has.
    pub proof fn lemma_finite(self)
        ensures
            self@.finite(),
            self@.len() <= 25,
            self@.len() == 0 <==> self@ == Set::<(int, int)>::empty(),
    {
        self.lemma_cells_below(25);
        assert(self@ =~= self.cells_below(25));
        self.lemma_count_bound(25);
        if self@.len() == 0 {
            assert(self@ =~= Set::<(int, int)>::empty()) by {
                if exists|cell: (int, int)| self@.contains(cell) {
                    let cell = choose|cell: (int, int)| self@.contains(cell);
                    assert(self@.remove(cell).insert(cell) =~= self@);
                }
            }
        }
    }

    /// Among the first `n` bits no more than `n` are set.
    proof fn lemma_count_bound(self, n: int)
        requires
            0 <= n,
        ensures
            set_bits_below(self.bits@, n) <= n,
        decreases n,
    {
        if n > 0 {
            self.lemma_count_bound(n - 1);
        }
    }

    /// What `num_squares` returns.
    pub open spec fn spec_num_squares(self) -> usize {
        self@.len() as usize
    }

    /// The number of cells that the mino fills.
    #[verifier::when_used_as_spec(spec_num_squares)]
    pub fn num_squares(self) -> (count: usize)
        ensures
            count == self.spec_num_squares(),
            count == self@.len(),
    {
        let mut count: usize = 0;
        let mut k: usize = 0;
        proof {
            use_type_invariant(&self);
        }
        while k < MINO_BYTES
            invariant
                k <= 4,
                count == set_bits_below(self.bits@, 8 * k),
                count <= 8 * k,
            decreases 4 - k,
        {
            proof {
                lemma_count_byte(self.bits@, k as int);
                lemma_bit_count_bound(self.bits@[k as int]);
            }
            count += self.bits[k].count_ones() as usize;
            k += 1;
        }
        proof {
            lemma_count_clear_tail(self.bits@, 25, 32);
            self.lemma_cells_below(25);
            assert(self@ =~= self.cells_below(25));
            self.lemma_finite();
        }
        count
    }

    /// The valid mino that fills the cells of `cells` that lie in the container.
    pub closed spec fn of_cells(cells: Set<(int, int)>) -> Self {
        choose|mino: Self| mino.wf() && mino@ == within_container(cells)
    }

    /// There is a valid mino for every set of cells, and `of_cells` names it.
    pub proof fn lemma_of_cells(cells: Set<(int, int)>)
        ensures
            Self::of_cells(cells).wf(),
            Self::of_cells(cells)@ == within_container(cells),
    {
        let bits: [u8; 4] = [
            wanted_byte(cells, 0),
            wanted_byte(cells, 1),
            wanted_byte(cells, 2),
            wanted_byte(cells, 3),
        ];
        let mino = Mino { bits };
        assert forall|i: int| 0 <= i < 32 implies bitmap_bit(bits@, i) == wanted_bit(cells, i) by {
            let k = i / 8;
            let j = i % 8;
            assert(0 <= k < 4 && 0 <= j < 8 && i == 8 * k + j);
            lemma_wanted_byte(cells, k, j);
            assert(bits@[k] == wanted_byte(cells, k));
        }
        assert forall|cell: (int, int)| mino@.contains(cell) == within_container(cells).contains(
            cell,
        ) by {
            if in_container(cell) {
                let i = cell.1 * 5 + cell.0;
                assert(0 <= i < 25 && i % 5 == cell.0 && i / 5 == cell.1);
                assert(bitmap_bit(bits@, i) == wanted_bit(cells, i));
            }
        }
        assert(mino@ =~= within_container(cells));
        assert(mino.wf());
    }

    /// A valid mino is the one that `of_cells` names for its cells.
    pub proof fn lemma_is_of_cells(self, cells: Set<(int, int)>)
        requires
            self.wf(),
            self@ == within_container(cells),
        ensures
            self == Self::of_cells(cells),
    {
        Self::lemma_of_cells(cells);
        self.lemma_same_cells(Self::of_cells(cells));
    }

    /// The mino whose cell `(x, y)` is filled where `is_filled(x, y)` says so.
    /// The function is asked once for each cell of the container, row by row.
    pub fn from_fn<F: Fn(Coordinate, Coordinate) -> bool>(is_filled: F) -> (mino: Self)
        requires
            forall|x: Coordinate, y: Coordinate|
                in_container((x as int, y as int)) ==> #[trigger] call_requires(is_filled, (x, y)),
        ensures
            mino.wf(),
            forall|x: Coordinate, y: Coordinate|
                in_container((x as int, y as int)) ==> call_ensures(
                    is_filled,
                    (x, y),
                    #[trigger] mino@.contains((x as int, y as int)),
                ),
    {
        let mut bits: [u8; MINO_BYTES] = [0; MINO_BYTES];
        let mut index: u8 = 0;
        proof {
            assert forall|i: int| 0 <= i < 32 implies !bitmap_bit(bits@, i) by {
                lemma_zero_byte(bits@[i / 8]);
            }
        }
        while index < NUM_SQUARES_IN_MINO as u8
            invariant
                index <= 25,
                forall|x: Coordinate, y: Coordinate|
                    in_container((x as int, y as int)) ==> #[trigger] call_requires(is_filled, (x, y)),
                forall|i: int| index <= i < 32 ==> !bitmap_bit(bits@, i),
                forall|x: Coordinate, y: Coordinate|
                    in_container((x as int, y as int)) && y * 5 + x < index ==> call_ensures(
                        is_filled,
                        (x, y),
                        #[trigger] bitmap_bit(bits@, y * 5 + x),
                    ),
            decreases 25 - index,
        {
            let x = (index % 5) as Coordinate;
            let y = (index / 5) as Coordinate;
            let filled = is_filled(x, y);
            let byte = (index / 8) as usize;
            let bit = index % 8;
            let flag: u8 = if filled { 1 } else { 0 };
            let updated = bits[byte] & !(1 << bit) | (flag << bit);
            proof {
                let after = bits@.update(byte as int, updated);
                assert(updated == assign_bit(bits@[byte as int], bit, filled));
                assert forall|i: int| 0 <= i < 32 implies bitmap_bit(after, i) == (if i == index {
                    filled
                } else {
                    bitmap_bit(bits@, i)
                }) by {
                    lemma_bitmap_assign(bits@, index as int, filled, i);
                }
            }
            bits[byte] = updated;
            index += 1;
        }
        let mino = Self { bits };
        proof {
            assert forall|x: Coordinate, y: Coordinate|
                in_container((x as int, y as int)) implies call_ensures(
                is_filled,
                (x, y),
                #[trigger] mino@.contains((x as int, y as int)),
            ) by {
                assert(mino@.contains((x as int, y as int)) == bitmap_bit(bits@, y * 5 + x));
            }
        }
        mino
    }

    /// The mino that a picture of five rows shows: `rows[y][x]` says whether
    /// the cell `(x, y)` is filled.
    pub fn from_rows(rows: [[bool; 5]; 5]) -> (mino: Self)
        ensures
            mino.wf(),
            mino@ == cells_of_rows(rows),
    {
        let is_filled = |x: Coordinate, y: Coordinate| -> (filled: bool)
            requires
                in_container((x as int, y as int)),
            ensures
                filled == row_marks(rows, x as int, y as int),
            {
                let row = y as usize;
                let column = x as usize;
                rows[row][column]
            };
        let mino = Self::from_fn(is_filled);
        proof {
            assert forall|cell: (int, int)| mino@.contains(cell) == cells_of_rows(rows).contains(
                cell,
            ) by {
                mino.lemma_cells_in_container();
                if in_container(cell) {
                    let x = cell.0 as Coordinate;
                    let y = cell.1 as Coordinate;
                    assert(mino@.contains((x as int, y as int)) == row_marks(rows, x as int, y as int));
                }
            }
            assert(mino@ =~= cells_of_rows(rows));
        }
        mino
    }

    /// Whether the cell `(x, y)` is filled, or `None` if it is not a cell of
    /// the container.
    pub fn at(self, x: Coordinate, y: Coordinate) -> (filled: Option<bool>)
        ensures
            filled is Some <==> in_container((x as int, y as int)),
            filled matches Some(f) ==> f == self@.contains((x as int, y as int)),
    {
        if x < 0 || y < 0 || x >= MINO_SIZE || y >= MINO_SIZE {
            return None;
        }
        let index = y * MINO_SIZE + x;
        let byte = (index / 8) as usize;
        let bit = (index % 8) as u8;
        let ret = (self.bits[byte] & (1 << bit)) > 0;
        Some(ret)
    }

    /// A valid mino that agrees with `cells` on every cell of the container,
    /// where `cells` lies in the container, has exactly those cells.
    proof fn lemma_sampled(self, cells: Set<(int, int)>)
        requires
            self.wf(),
            forall|cell: (int, int)| cells.contains(cell) ==> in_container(cell),
            forall|x: Coordinate, y: Coordinate|
                in_container((x as int, y as int)) ==> #[trigger] self@.contains(
                    (x as int, y as int),
                ) == cells.contains((x as int, y as int)),
        ensures
            self@ == cells,
            self == Self::of_cells(cells),
    {
        assert forall|cell: (int, int)| self@.contains(cell) == cells.contains(cell) by {
            if in_container(cell) {
                let x = cell.0 as Coordinate;
                let y = cell.1 as Coordinate;
                assert(self@.contains((x as int, y as int)) == cells.contains(
                    (x as int, y as int),
                ));
            }
        }
        assert(self@ =~= cells);
        assert(within_container(cells) =~= cells);
        self.lemma_is_of_cells(cells);
    }

    /// What `flip_horizontal` returns.
    pub open spec fn spec_flip_horizontal(self) -> Self {
        Self::of_cells(flipped_horizontally(self@))
    }

    /// The mino mirrored left to right.
    #[verifier::when_used_as_spec(spec_flip_horizontal)]
    pub fn flip_horizontal(self) -> (mino: Self)
        ensures
            mino == self.spec_flip_horizontal(),
            mino.wf(),
            mino@ == flipped_horizontally(self@),
    {
        let sample = |x: Coordinate, y: Coordinate| -> (filled: bool)
            requires
                in_container((x as int, y as int)),
            ensures
                filled == self@.contains((4 - x, y as int)),
            { self.at((MINO_SIZE - 1) - x, y).unwrap() };
        let mino = Self::from_fn(sample);
        proof {
            mino.lemma_sampled(flipped_horizontally(self@));
        }
        mino
    }

    /// What `flip_vertical` returns.
    pub open spec fn spec_flip_vertical(self) -> Self {
        Self::of_cells(flipped_vertically(self@))
    }

    /// The mino mirrored top to bottom.
    #[verifier::when_used_as_spec(spec_flip_vertical)]
    pub fn flip_vertical(self) -> (mino: Self)
        ensures
            mino == self.spec_flip_vertical(),
            mino.wf(),
            mino@ == flipped_vertically(self@),
    {
        let sample = |x: Coordinate, y: Coordinate| -> (filled: bool)
            requires
                in_container((x as int, y as int)),
            ensures
                filled == self@.contains((x as int, 4 - y)),
            { self.at(x, (MINO_SIZE - 1) - y).unwrap() };
        let mino = Self::from_fn(sample);
        proof {
            mino.lemma_sampled(flipped_vertically(self@));
        }
        mino
    }

    /// What `rotate_cw_90` returns.
    pub open spec fn spec_rotate_cw_90(self) -> Self {
        Self::of_cells(rotated_cw_90(self@))
    }

    /// The mino turned a quarter clockwise.
    #[verifier::when_used_as_spec(spec_rotate_cw_90)]
    pub fn rotate_cw_90(self) -> (mino: Self)
        ensures
            mino == self.spec_rotate_cw_90(),
            mino.wf(),
            mino@ == rotated_cw_90(self@),
    {
        let sample = |x: Coordinate, y: Coordinate| -> (filled: bool)
            requires
                in_container((x as int, y as int)),
            ensures
                filled == self@.contains((y as int, 4 - x)),
            { self.at(y, (MINO_SIZE - 1) - x).unwrap() };
        let mino = Self::from_fn(sample);
        proof {
            mino.lemma_sampled(rotated_cw_90(self@));
        }
        mino
    }

    /// What `rotate_180` returns.
    pub open spec fn spec_rotate_180(self) -> Self {
        Self::of_cells(rotated_180(self@))
    }

    /// The mino turned half way round.
    #[verifier::when_used_as_spec(spec_rotate_180)]
    pub fn rotate_180(self) -> (mino: Self)
        ensures
            mino == self.spec_rotate_180(),
            mino.wf(),
            mino@ == rotated_180(self@),
    {
        let sample = |x: Coordinate, y: Coordinate| -> (filled: bool)
            requires
                in_container((x as int, y as int)),
            ensures
                filled == self@.contains((4 - x, 4 - y)),
            { self.at((MINO_SIZE - 1) - x, (MINO_SIZE - 1) - y).unwrap() };
        let mino = Self::from_fn(sample);
        proof {
            mino.lemma_sampled(rotated_180(self@));
        }
        mino
    }

    /// What `rotate_ccw_90` returns.
    pub open spec fn spec_rotate_ccw_90(self) -> Self {
        Self::of_cells(rotated_ccw_90(self@))
    }

    /// The mino turned a quarter counterclockwise.
    #[verifier::when_used_as_spec(spec_rotate_ccw_90)]
    pub fn rotate_ccw_90(self) -> (mino: Self)
        ensures
            mino == self.spec_rotate_ccw_90(),
            mino.wf(),
            mino@ == rotated_ccw_90(self@),
    {
        let sample = |x: Coordinate, y: Coordinate| -> (filled: bool)
            requires
                in_container((x as int, y as int)),
            ensures
                filled == self@.contains((4 - y, x as int)),
            { self.at((MINO_SIZE - 1) - y, x).unwrap() };
        let mino = Self::from_fn(sample);
        proof {
            mino.lemma_sampled(rotated_ccw_90(self@));
        }
        mino
    }

    /// A mino that fills a cell has a cell to show.
    pub proof fn lemma_has_cell(self) -> (cell: (int, int))
        requires
            self@.len() > 0,
        ensures
            self@.contains(cell),
            in_container(cell),
    {
        self.lemma_finite();
        if forall|cell: (int, int)| !self@.contains(cell) {
            assert(self@ =~= Set::<(int, int)>::empty());
        }
        choose|cell: (int, int)| self@.contains(cell)
    }

    /// Whether the column `x` holds a filled cell.
    fn column_filled(self, x: Coordinate) -> (filled: bool)
        requires
            0 <= x < 5,
        ensures
            filled == column_filled_at(self@, x as int),
    {
        let mut y: Coordinate = 0;
        while y < MINO_SIZE
            invariant
                0 <= y <= 5,
                0 <= x < 5,
                forall|below: int| 0 <= below < y ==> !self@.contains((x as int, below)),
            decreases 5 - y,
        {
            if self.at(x, y).unwrap() {
                return true;
            }
            y += 1;
        }
        false
    }

    /// Whether the row `y` holds a filled cell.
    fn row_filled(self, y: Coordinate) -> (filled: bool)
        requires
            0 <= y < 5,
        ensures
            filled == row_filled_at(self@, y as int),
    {
        let mut x: Coordinate = 0;
        while x < MINO_SIZE
            invariant
                0 <= x <= 5,
                0 <= y < 5,
                forall|left: int| 0 <= left < x ==> !self@.contains((left, y as int)),
            decreases 5 - x,
        {
            if self.at(x, y).unwrap() {
                return true;
            }
            x += 1;
        }
        false
    }

    /// What `min_point` returns: the first column and the first row that
    /// hold a filled cell.
    pub open spec fn spec_min_point(self) -> (Coordinate, Coordinate) {
        (
            if column_filled_at(self@, 0) {
                0
            } else if column_filled_at(self@, 1) {
                1
            } else if column_filled_at(self@, 2) {
                2
            } else if column_filled_at(self@, 3) {
                3
            } else {
                4
            },
            if row_filled_at(self@, 0) {
                0
            } else if row_filled_at(self@, 1) {
                1
            } else if row_filled_at(self@, 2) {
                2
            } else if row_filled_at(self@, 3) {
                3
            } else {
                4
            },
        )
    }

    /// What `max_point` returns: the last column and the last row that hold
    /// a filled cell.
    pub open spec fn spec_max_point(self) -> (Coordinate, Coordinate) {
        (
            if column_filled_at(self@, 4) {
                4
            } else if column_filled_at(self@, 3) {
                3
            } else if column_filled_at(self@, 2) {
                2
            } else if column_filled_at(self@, 1) {
                1
            } else {
                0
            },
            if row_filled_at(self@, 4) {
                4
            } else if row_filled_at(self@, 3) {
                3
            } else if row_filled_at(self@, 2) {
                2
            } else if row_filled_at(self@, 1) {
                1
            } else {
                0
            },
        )
    }

    /// The corners of a mino that fills a cell are the corners of the
    /// tightest box around it.
    pub proof fn lemma_corners(self)
        requires
            self@.len() > 0,
        ensures
            is_min_point(self@, cell_of(self.min_point())),
            is_max_point(self@, cell_of(self.max_point())),
            in_container(cell_of(self.min_point())),
            in_container(cell_of(self.max_point())),
    {
        let witness = self.lemma_has_cell();
        self.lemma_cells_in_container();
        assert(column_filled_at(self@, witness.0));
        assert(row_filled_at(self@, witness.1));
        let lo = cell_of(self.min_point());
        let hi = cell_of(self.max_point());
        let left = choose|y: int| 0 <= y < 5 && self@.contains((lo.0, y));
        assert(self@.contains((lo.0, left)) && (lo.0, left).0 == lo.0);
        let top = choose|x: int| 0 <= x < 5 && self@.contains((x, lo.1));
        assert(self@.contains((top, lo.1)) && (top, lo.1).1 == lo.1);
        let right = choose|y: int| 0 <= y < 5 && self@.contains((hi.0, y));
        assert(self@.contains((hi.0, right)) && (hi.0, right).0 == hi.0);
        let bottom = choose|x: int| 0 <= x < 5 && self@.contains((x, hi.1));
        assert(self@.contains((bottom, hi.1)) && (bottom, hi.1).1 == hi.1);
        assert forall|cell: (int, int)| self@.contains(cell) implies lo.0 <= cell.0 && lo.1
            <= cell.1 && cell.0 <= hi.0 && cell.1 <= hi.1 by {
            assert(column_filled_at(self@, cell.0));
            assert(row_filled_at(self@, cell.1));
        }
    }

    /// A mino has one top left corner and one bottom right corner at most.
    pub proof fn lemma_corners_unique(
        self,
        a: (Coordinate, Coordinate),
        b: (Coordinate, Coordinate),
    )
        ensures
            is_min_point(self@, cell_of(a)) && is_min_point(self@, cell_of(b)) ==> a == b,
            is_max_point(self@, cell_of(a)) && is_max_point(self@, cell_of(b)) ==> a == b,
    {
    }

    /// The first column and the first row that hold a filled cell: the top
    /// left corner of the tightest box around the mino.
    #[verifier::when_used_as_spec(spec_min_point)]
    pub fn min_point(self) -> (point: (Coordinate, Coordinate))
        requires
            self@.len() > 0,
        ensures
            point == self.spec_min_point(),
            is_min_point(self@, cell_of(point)),
            in_container(cell_of(point)),
    {
        let ghost witness = self.lemma_has_cell();
        proof {
            self.lemma_cells_in_container();
        }
        let mut min_x: Coordinate = 0;
        while !self.column_filled(min_x)
            invariant
                0 <= min_x <= witness.0 < 5,
                self@.contains(witness),
                forall|cell: (int, int)| self@.contains(cell) ==> in_container(cell),
                forall|cell: (int, int)| self@.contains(cell) ==> min_x <= cell.0,
            decreases 5 - min_x,
        {
            min_x += 1;
        }
        let mut min_y: Coordinate = 0;
        while !self.row_filled(min_y)
            invariant
                0 <= min_y <= witness.1 < 5,
                self@.contains(witness),
                forall|cell: (int, int)| self@.contains(cell) ==> in_container(cell),
                forall|cell: (int, int)| self@.contains(cell) ==> min_y <= cell.1,
            decreases 5 - min_y,
        {
            min_y += 1;
        }
        proof {
            let y = choose|y: int| 0 <= y < 5 && self@.contains((min_x as int, y));
            assert(self@.contains((min_x as int, y)) && (min_x as int, y).0 == min_x);
            let x = choose|x: int| 0 <= x < 5 && self@.contains((x, min_y as int));
            assert(self@.contains((x, min_y as int)) && (x, min_y as int).1 == min_y);
            self.lemma_corners();
            self.lemma_corners_unique((min_x, min_y), self.spec_min_point());
        }
        (min_x, min_y)
    }

    /// The last column and the last row that hold a filled cell: the bottom
    /// right corner of the tightest box around the mino.
    #[verifier::when_used_as_spec(spec_max_point)]
    pub fn max_point(self) -> (point: (Coordinate, Coordinate))
        requires
            self@.len() > 0,
        ensures
            point == self.spec_max_point(),
            is_max_point(self@, cell_of(point)),
            in_container(cell_of(point)),
    {
        let ghost witness = self.lemma_has_cell();
        proof {
            self.lemma_cells_in_container();
        }
        let mut max_x: Coordinate = MINO_SIZE - 1;
        while !self.column_filled(max_x)
            invariant
                0 <= witness.0 <= max_x < 5,
                self@.contains(witness),
                forall|cell: (int, int)| self@.contains(cell) ==> in_container(cell),
                forall|cell: (int, int)| self@.contains(cell) ==> cell.0 <= max_x,
            decreases max_x,
        {
            max_x -= 1;
        }
        let mut max_y: Coordinate = MINO_SIZE - 1;
        while !self.row_filled(max_y)
            invariant
                0 <= witness.1 <= max_y < 5,
                self@.contains(witness),
                forall|cell: (int, int)| self@.contains(cell) ==> in_container(cell),
                forall|cell: (int, int)| self@.contains(cell) ==> cell.1 <= max_y,
            decreases max_y,
        {
            max_y -= 1;
        }
        proof {
            let y = choose|y: int| 0 <= y < 5 && self@.contains((max_x as int, y));
            assert(self@.contains((max_x as int, y)) && (max_x as int, y).0 == max_x);
            let x = choose|x: int| 0 <= x < 5 && self@.contains((x, max_y as int));
            assert(self@.contains((x, max_y as int)) && (x, max_y as int).1 == max_y);
            self.lemma_corners();
            self.lemma_corners_unique((max_x, max_y), self.spec_max_point());
        }
        (max_x, max_y)
    }

    /// The mino as a grid: `grid()[y][x]` says whether the cell `(x, y)` is filled.
    pub open spec fn grid(self) -> Seq<Seq<bool>> {
        Seq::new(5, |y: int| Seq::new(5, |x: int| self@.contains((x, y))))
    }

    /// The text that shows the mino: its name and the five rows of its
    /// container, a `'1'` for each filled cell and a `'0'` for each empty one.
    pub fn debug_string(&self) -> (text: String)
        ensures
            text@ == grid_text("Mino"@, self.grid()),
    {
        let get = |x: usize, y: usize| -> (filled: bool)
            requires
                x < 5 && y < 5,
            ensures
                filled == self@.contains((x as int, y as int)),
            { self.at(x as Coordinate, y as Coordinate).unwrap() };
        let text = grid_fmt("Mino", 5, 5, get);
        proof {
            let grid = choose|grid: Seq<Seq<bool>>|
                answers(get, 5, 5, grid) && text@ == #[trigger] grid_text("Mino"@, grid);
            assert forall|y: int| 0 <= y < 5 implies grid[y] =~= self.grid()[y] by {
                assert forall|x: int| 0 <= x < 5 implies grid[y][x] == self.grid()[y][x] by {
                    let column = x as usize;
                    let row = y as usize;
                    assert(call_ensures(get, (column, row), grid[row as int][column as int]));
                }
            }
            assert(grid =~= self.grid());
        }
        text
    }

    /// The offsets of the filled cells, row by row.
    pub open spec fn offsets(self) -> Seq<(Coordinate, Coordinate)> {
        container_offsets().filter(|offset: (Coordinate, Coordinate)| self@.contains(cell_of(offset)))
    }

    /// The offsets list the filled cells, each of them and nothing else.
    pub proof fn lemma_offsets(self)
        ensures
            forall|k: int|
                0 <= k < self.offsets().len() ==> self@.contains(
                    cell_of(#[trigger] self.offsets()[k]),
                ),
            forall|cell: (int, int)|
                self@.contains(cell) ==> exists|k: int|
                    0 <= k < self.offsets().len() && cell_of(#[trigger] self.offsets()[k]) == cell,
    {
        let pred = |offset: (Coordinate, Coordinate)| self@.contains(cell_of(offset));
        lemma_filter_members(container_offsets(), pred);
        assert forall|cell: (int, int)| self@.contains(cell) implies exists|k: int|
            0 <= k < self.offsets().len() && cell_of(#[trigger] self.offsets()[k]) == cell by {
            self.lemma_cells_in_container();
            let i = cell.1 * 5 + cell.0;
            assert(cell_of(container_offsets()[i]) == cell);
            assert(self.offsets().contains(container_offsets()[i]));
            let k = choose|k: int|
                0 <= k < self.offsets().len() && self.offsets()[k] == container_offsets()[i];
            assert(cell_of(self.offsets()[k]) == cell);
        }
    }

    /// The offsets of the filled cells, row by row.
    pub fn iter(self) -> (offsets: Vec<(Coordinate, Coordinate)>)
        ensures
            offsets@ == self.offsets(),
    {
        let ghost pred = |offset: (Coordinate, Coordinate)| self@.contains(cell_of(offset));
        let mut offsets: Vec<(Coordinate, Coordinate)> = Vec::new();
        let mut y: Coordinate = 0;
        proof {
            lemma_filter_take_none(container_offsets(), pred);
        }
        while y < MINO_SIZE
            invariant
                0 <= y <= 5,
                pred == |offset: (Coordinate, Coordinate)| self@.contains(cell_of(offset)),
                offsets@ == container_offsets().take(5 * y).filter(pred),
            decreases 5 - y,
        {
            let mut x: Coordinate = 0;
            while x < MINO_SIZE
                invariant
                    0 <= x <= 5,
                    0 <= y < 5,
                    pred == |offset: (Coordinate, Coordinate)| self@.contains(cell_of(offset)),
                    offsets@ == container_offsets().take(5 * y + x).filter(pred),
                decreases 5 - x,
            {
                proof {
                    lemma_filter_take_next(container_offsets(), pred, 5 * y + x);
                    assert(container_offsets()[5 * y + x] == (x, y));
                }
                if self.at(x, y).unwrap() {
                    offsets.push((x, y));
                }
                x += 1;
            }
            y += 1;
        }
        proof {
            assert(container_offsets().take(25) =~= container_offsets());
        }
        offsets
    }

    /// The shapes of the catalog, in its fixed order.
    pub fn all() -> (tiles: Vec<Self>)
        ensures
            tiles@.len() == 16,
            forall|i: int|
                0 <= i < 16 ==> (#[trigger] tiles@[i]).wf() && tiles@[i]@ == catalog()[i],
    {
        let mut tiles: Vec<Self> = Vec::new();
        // An L three cells tall and three wide.
        let tile = Self::from_rows(
            [
                [O, O, O, O, O],
                [O, X, O, O, O],
                [O, X, O, O, O],
                [O, X, X, X, O],
                [O, O, O, O, O],
            ],
        );
        assert(tile@ =~= catalog()[0]);
        tiles.push(tile);
        // An L two cells tall and three wide.
        let tile = Self::from_rows(
            [
                [O, O, O, O, O],
                [O, X, O, O, O],
                [O, X, X, X, O],
                [O, O, O, O, O],
                [O, O, O, O, O],
            ],
        );
        assert(tile@ =~= catalog()[1]);
        tiles.push(tile);
        // An L two cells tall and two wide.
        let tile = Self::from_rows(
            [
                [O, O, O, O, O],
                [O, O, X, O, O],
                [O, O, X, X, O],
                [O, O, O, O, O],
                [O, O, O, O, O],
            ],
        );
        assert(tile@ =~= catalog()[2]);
        tiles.push(tile);
        // A single cell.
        let tile = Self::from_rows(
            [
                [O, O, O, O, O],
                [O, O, O, O, O],
                [O, O, X, O, O],
                [O, O, O, O, O],
                [O, O, O, O, O],
            ],
        );
        assert(tile@ =~= catalog()[3]);
        tiles.push(tile);
        // A square of two by two cells.
        let tile = Self::from_rows(
            [
                [O, O, O, O, O],
                [O, O, O, O, O],
                [O, O, X, X, O],
                [O, O, X, X, O],
                [O, O, O, O, O],
            ],
        );
        assert(tile@ =~= catalog()[4]);
        tiles.push(tile);
        // Two cells on a diagonal.
        let tile = Self::from_rows(
            [
                [O, O, O, O, O],
                [O, O, O, O, O],
                [O, O, X, O, O],
                [O, O, O, X, O],
                [O, O, O, O, O],
            ],
        );
        assert(tile@ =~= catalog()[5]);
        tiles.push(tile);
        // Three cells on a diagonal.
        let tile = Self::from_rows(
            [
                [O, O, O, O, O],
                [O, X, O, O, O],
                [O, O, X, O, O],
                [O, O, O, X, O],
                [O, O, O, O, O],
            ],
        );
        assert(tile@ =~= catalog()[6]);
        tiles.push(tile);
        // A bar of two cells.
        let tile = Self::from_rows(
            [
                [O, O, O, O, O],
                [O, O, O, O, O],
                [O, X, X, O, O],
                [O, O, O, O, O],
                [O, O, O, O, O],
            ],
        );
        assert(tile@ =~= catalog()[7]);
        tiles.push(tile);
        // A bar of three cells.
        let tile = Self::from_rows(
            [
                [O, O, O, O, O],
                [O, O, O, O, O],
                [O, X, X, X, O],
                [O, O, O, O, O],
                [O, O, O, O, O],
            ],
        );
        assert(tile@ =~= catalog()[8]);
        tiles.push(tile);
        // A bar of four cells.
        let tile = Self::from_rows(
            [
                [O, O, O, O, O],
                [O, O, O, O, O],
                [X, X, X, X, O],
                [O, O, O, O, O],
                [O, O, O, O, O],
            ],
        );
        assert(tile@ =~= catalog()[9]);
        tiles.push(tile);
        // A bar of five cells.
        let tile = Self::from_rows(
            [
                [O, O, O, O, O],
                [O, O, O, O, O],
                [X, X, X, X, X],
                [O, O, O, O, O],
                [O, O, O, O, O],
            ],
        );
        assert(tile@ =~= catalog()[10]);
        tiles.push(tile);
        // A C two cells wide and three tall.
        let tile = Self::from_rows(
            [
                [O, O, O, O, O],
                [O, X, X, O, O],
                [O, X, O, O, O],
                [O, X, X, O, O],
                [O, O, O, O, O],
            ],
        );
        assert(tile@ =~= catalog()[11]);
        tiles.push(tile);
        // An S, or a Z.
        let tile = Self::from_rows(
            [
                [O, O, O, O, O],
                [O, X, X, O, O],
                [O, O, X, X, O],
                [O, O, O, O, O],
                [O, O, O, O, O],
            ],
        );
        assert(tile@ =~= catalog()[12]);
        tiles.push(tile);
        // A T two cells tall.
        let tile = Self::from_rows(
            [
                [O, O, O, O, O],
                [O, X, X, X, O],
                [O, O, X, O, O],
                [O, O, O, O, O],
                [O, O, O, O, O],
            ],
        );
        assert(tile@ =~= catalog()[13]);
        tiles.push(tile);
        // A T three cells tall.
        let tile = Self::from_rows(
            [
                [O, O, O, O, O],
                [O, X, X, X, O],
                [O, O, X, O, O],
                [O, O, X, O, O],
                [O, O, O, O, O],
            ],
        );
        assert(tile@ =~= catalog()[14]);
        tiles.push(tile);
        // A plus.
        let tile = Self::from_rows(
            [
                [O, O, O, O, O],
                [O, O, X, O, O],
                [O, X, X, X, O],
                [O, O, X, O, O],
                [O, O, O, O, O],
            ],
        );
        assert(tile@ =~= catalog()[15]);
        tiles.push(tile);
        tiles
    }
}

/// Turning a mino a quarter clockwise four times gives the mino back.
pub proof fn lemma_rotate_cw_90_four_times(mino: Mino)
    requires
        mino.wf(),
    ensures
        mino.rotate_cw_90().rotate_cw_90().rotate_cw_90().rotate_cw_90() == mino,
{
    let once = mino.rotate_cw_90();
    let twice = once.rotate_cw_90();
    let thrice = twice.rotate_cw_90();
    let back = thrice.rotate_cw_90();
    Mino::lemma_of_cells(rotated_cw_90(mino@));
    Mino::lemma_of_cells(rotated_cw_90(once@));
    Mino::lemma_of_cells(rotated_cw_90(twice@));
    Mino::lemma_of_cells(rotated_cw_90(thrice@));
    mino.lemma_cells_in_container();
    assert(back@ =~= mino@);
    back.lemma_same_cells(mino);
}

/// Mirroring a mino left to right twice gives the mino back.
pub proof fn lemma_flip_horizontal_twice(mino: Mino)
    requires
        mino.wf(),
    ensures
        mino.flip_horizontal().flip_horizontal() == mino,
{
    let once = mino.flip_horizontal();
    let back = once.flip_horizontal();
    Mino::lemma_of_cells(flipped_horizontally(mino@));
    Mino::lemma_of_cells(flipped_horizontally(once@));
    mino.lemma_cells_in_container();
    assert(back@ =~= mino@);
    back.lemma_same_cells(mino);
}

/// Cells that are moved one to one inside the container stay as many as they were.
proof fn lemma_moved_cells(
    cells: Set<(int, int)>,
    moved: Set<(int, int)>,
    to: spec_fn((int, int)) -> (int, int),
    from: spec_fn((int, int)) -> (int, int),
)
    requires
        cells.finite(),
        forall|cell: (int, int)| cells.contains(cell) ==> in_container(cell),
        forall|cell: (int, int)|
            in_container(cell) ==> in_container(#[trigger] to(cell)) && from(to(cell)) == cell,
        forall|cell: (int, int)|
            in_container(cell) ==> in_container(#[trigger] from(cell)) && to(from(cell)) == cell,
        forall|cell: (int, int)|
            moved.contains(cell) == (in_container(cell) && cells.contains(from(cell))),
    ensures
        moved.finite(),
        moved.len() == cells.len(),
{
    assert forall|cell: (int, int)| cells.map(to).contains(cell) == moved.contains(cell) by {
        if moved.contains(cell) {
            assert(cells.contains(from(cell)) && cell == to(from(cell)));
        }
        if cells.map(to).contains(cell) {
            let source = choose|source: (int, int)| cells.contains(source) && cell == to(source);
            assert(from(cell) == source);
        }
    }
    assert(cells.map(to) =~= moved);
    assert(injective_on(to, cells)) by {
        assert forall|a: (int, int), b: (int, int)|
            cells.contains(a) && cells.contains(b) && #[trigger] to(a) == #[trigger] to(
                b,
            ) implies a == b by {
            assert(from(to(a)) == a && from(to(b)) == b);
        }
    }
    lemma_map_size(cells, moved, to);
}

/// Every transform keeps the number of filled cells.
pub proof fn lemma_transforms_keep_num_squares(mino: Mino)
    requires
        mino.wf(),
    ensures
        mino.flip_horizontal().num_squares() == mino.num_squares(),
        mino.flip_vertical().num_squares() == mino.num_squares(),
        mino.rotate_cw_90().num_squares() == mino.num_squares(),
        mino.rotate_180().num_squares() == mino.num_squares(),
        mino.rotate_ccw_90().num_squares() == mino.num_squares(),
{
    mino.lemma_finite();
    mino.lemma_cells_in_container();
    Mino::lemma_of_cells(flipped_horizontally(mino@));
    Mino::lemma_of_cells(flipped_vertically(mino@));
    Mino::lemma_of_cells(rotated_cw_90(mino@));
    Mino::lemma_of_cells(rotated_180(mino@));
    Mino::lemma_of_cells(rotated_ccw_90(mino@));
    assert(mino.flip_horizontal()@ =~= flipped_horizontally(mino@));
    assert(mino.flip_vertical()@ =~= flipped_vertically(mino@));
    assert(mino.rotate_cw_90()@ =~= rotated_cw_90(mino@));
    assert(mino.rotate_180()@ =~= rotated_180(mino@));
    assert(mino.rotate_ccw_90()@ =~= rotated_ccw_90(mino@));
    lemma_moved_cells(
        mino@,
        flipped_horizontally(mino@),
        |cell: (int, int)| (4 - cell.0, cell.1),
        |cell: (int, int)| (4 - cell.0, cell.1),
    );
    lemma_moved_cells(
        mino@,
        flipped_vertically(mino@),
        |cell: (int, int)| (cell.0, 4 - cell.1),
        |cell: (int, int)| (cell.0, 4 - cell.1),
    );
    lemma_moved_cells(
        mino@,
        rotated_cw_90(mino@),
        |cell: (int, int)| (4 - cell.1, cell.0),
        |cell: (int, int)| (cell.1, 4 - cell.0),
    );
    lemma_moved_cells(
        mino@,
        rotated_180(mino@),
        |cell: (int, int)| (4 - cell.0, 4 - cell.1),
        |cell: (int, int)| (4 - cell.0, 4 - cell.1),
    );
    lemma_moved_cells(
        mino@,
        rotated_ccw_90(mino@),
        |cell: (int, int)| (cell.1, 4 - cell.0),
        |cell: (int, int)| (4 - cell.1, cell.0),
    );
}

/// Every shape of the catalog fills at least one cell and stays inside the container.
pub proof fn lemma_catalog_shapes(i: int)
    requires
        0 <= i < 16,
    ensures
        catalog()[i].finite(),
        catalog()[i].len() >= 1,
        forall|cell: (int, int)| catalog()[i].contains(cell) ==> in_container(cell),
{
    assert(catalog()[i].contains((2, 2)) || catalog()[i].contains((1, 1)) || catalog()[i].contains(
        (1, 2),
    ));
    let cell = if catalog()[i].contains((2, 2)) {
        (2int, 2int)
    } else if catalog()[i].contains((1, 1)) {
        (1int, 1int)
    } else {
        (1int, 2int)
    };
    assert(catalog()[i].remove(cell).insert(cell) =~= catalog()[i]);
}

} // verus!
