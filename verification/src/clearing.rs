//! Finding the rows, columns and boxes that are full, and clearing them.

use vstd::prelude::*;
use crate::board::{Board, SquareIndex, WouldRemove, BOARD_SIZE};
use crate::seq_facts::{lemma_filter_members, lemma_filter_take_next, lemma_filter_take_none};
use crate::util::Coordinate;

verus! {

/// The unit with the given rank: the nine rows from the top, then the nine
/// columns from the left, then the nine boxes by their numbers.
pub open spec fn unit(rank: int) -> WouldRemove {
    if rank < 9 {
        WouldRemove::Horizontal { y: rank as Coordinate }
    } else if rank < 18 {
        WouldRemove::Vertical { x: (rank - 9) as Coordinate }
    } else {
        WouldRemove::Square { index: SquareIndex::nth(rank - 18) }
    }
}

/// All units of the board, by rank.
pub open spec fn all_units() -> Seq<WouldRemove> {
    Seq::new(27, |rank: int| unit(rank))
}

/// Whether all nine cells of the unit are among `cells`.
pub open spec fn is_filled(cells: Set<(int, int)>, unit: WouldRemove) -> bool {
    forall|k: int| 0 <= k < 9 ==> cells.contains(#[trigger] unit.cells()[k])
}

/// The units of which all cells are among `cells`, by rank.
pub open spec fn filled_units(cells: Set<(int, int)>) -> Seq<WouldRemove> {
    all_units().filter(|unit: WouldRemove| is_filled(cells, unit))
}

/// Whether one of the first `n` units of `units` covers the cell.
pub open spec fn covered(units: Seq<WouldRemove>, n: int, cell: (int, int)) -> bool {
    exists|k: int| 0 <= k < n && (#[trigger] units[k]).covers(cell)
}

/// Whether the cell is among the first `n` cells of the unit.
pub open spec fn among_first(unit: WouldRemove, n: int, cell: (int, int)) -> bool {
    exists|k: int| 0 <= k < n && #[trigger] unit.cells()[k] == cell
}

/// One unit more covers what the units before it cover, and its own cells.
pub proof fn lemma_covered_next(units: Seq<WouldRemove>, n: int, cell: (int, int))
    requires
        0 <= n < units.len(),
    ensures
        covered(units, n + 1, cell) <==> covered(units, n, cell) || units[n].covers(cell),
{
    if covered(units, n, cell) {
        let k = choose|k: int| 0 <= k < n && (#[trigger] units[k]).covers(cell);
        assert(0 <= k < n + 1);
    }
    if units[n].covers(cell) {
        assert(0 <= n < n + 1);
    }
    if covered(units, n + 1, cell) {
        let k = choose|k: int| 0 <= k < n + 1 && (#[trigger] units[k]).covers(cell);
        if k < n {
            assert(covered(units, n, cell));
        }
    }
}

/// One cell more of a unit adds that cell to those before it.
pub proof fn lemma_among_first_next(unit: WouldRemove, n: int, cell: (int, int))
    requires
        0 <= n < 9,
    ensures
        among_first(unit, n + 1, cell) <==> among_first(unit, n, cell) || unit.cells()[n] == cell,
        !among_first(unit, 0, cell),
        among_first(unit, 9, cell) <==> unit.covers(cell),
{
    if among_first(unit, n, cell) {
        let k = choose|k: int| 0 <= k < n && #[trigger] unit.cells()[k] == cell;
        assert(0 <= k < n + 1);
    }
    if unit.cells()[n] == cell {
        assert(0 <= n < n + 1);
    }
    if among_first(unit, n + 1, cell) {
        let k = choose|k: int| 0 <= k < n + 1 && #[trigger] unit.cells()[k] == cell;
        if k < n {
            assert(among_first(unit, n, cell));
        }
    }
    assert(unit.cells().len() == 9);
    if unit.covers(cell) {
        let k = choose|k: int| 0 <= k < unit.cells().len() && unit.cells()[k] == cell;
        assert(0 <= k < 9 && unit.cells()[k] == cell);
    }
    if among_first(unit, 9, cell) {
        let k = choose|k: int| 0 <= k < 9 && #[trigger] unit.cells()[k] == cell;
        assert(unit.cells().contains(cell));
    }
}

/// What is left of `cells` when every full unit is cleared: the cells that
/// no full unit covers.
pub open spec fn cleared(cells: Set<(int, int)>) -> Set<(int, int)> {
    Set::new(
        |cell: (int, int)|
            cells.contains(cell) && !covered(
                filled_units(cells),
                filled_units(cells).len() as int,
                cell,
            ),
    )
}

/// Every unit of the board is valid.
pub proof fn lemma_units_valid(rank: int)
    requires
        0 <= rank < 27,
    ensures
        unit(rank).wf(),
        all_units()[rank] == unit(rank),
{
    if rank >= 18 {
        SquareIndex::lemma_nth(rank - 18);
    }
}

/// The full units are valid units of the board.
pub proof fn lemma_filled_units_valid(cells: Set<(int, int)>)
    ensures
        filled_units(cells).len() <= 27,
        forall|k: int|
            0 <= k < filled_units(cells).len() ==> (#[trigger] filled_units(cells)[k]).wf()
                && is_filled(cells, filled_units(cells)[k]),
{
    let pred = |unit: WouldRemove| is_filled(cells, unit);
    lemma_filter_members(all_units(), pred);
    all_units().lemma_filter_len(pred);
    assert forall|k: int| 0 <= k < filled_units(cells).len() implies (#[trigger] filled_units(
        cells,
    )[k]).wf() && is_filled(cells, filled_units(cells)[k]) by {
        let found = filled_units(cells)[k];
        assert(all_units().contains(found));
        let rank = choose|rank: int| 0 <= rank < 27 && all_units()[rank] == found;
        lemma_units_valid(rank);
    }
}

impl Board {
    /// Whether all nine cells of the unit are occupied.
    fn unit_filled(&self, unit: WouldRemove) -> (filled: bool)
        requires
            unit.wf(),
        ensures
            filled == is_filled(self@, unit),
    {
        let positions = unit.iter();
        let mut k: usize = 0;
        while k < 9
            invariant
                k <= 9,
                positions@.len() == 9,
                forall|j: int|
                    0 <= j < 9 ==> (#[trigger] positions@[j]).wf() && positions@[j]@
                        == unit.cells()[j],
                forall|j: int| 0 <= j < k ==> self@.contains(#[trigger] unit.cells()[j]),
            decreases 9 - k,
        {
            if !self.occupied(positions[k]) {
                proof {
                    assert(!self@.contains(unit.cells()[k as int]));
                }
                return false;
            }
            k += 1;
        }
        true
    }

    /// The units of which all cells are occupied: the full rows from the
    /// top, then the full columns from the left, then the full boxes by
    /// their numbers. A cell that lies in two full units is reported with
    /// each of them.
    pub fn find_filled(&self) -> (units: Vec<WouldRemove>)
        ensures
            units@ == filled_units(self@),
    {
        let ghost pred = |unit: WouldRemove| is_filled(self@, unit);
        let mut units: Vec<WouldRemove> = Vec::new();
        proof {
            lemma_filter_take_none(all_units(), pred);
        }
        let mut y: Coordinate = 0;
        while y < BOARD_SIZE
            invariant
                0 <= y <= 9,
                pred == |unit: WouldRemove| is_filled(self@, unit),
                units@ == all_units().take(y as int).filter(pred),
            decreases 9 - y,
        {
            proof {
                lemma_units_valid(y as int);
                lemma_filter_take_next(all_units(), pred, y as int);
            }
            let row = WouldRemove::Horizontal { y };
            if self.unit_filled(row) {
                units.push(row);
            }
            y += 1;
        }
        let mut x: Coordinate = 0;
        while x < BOARD_SIZE
            invariant
                0 <= x <= 9,
                pred == |unit: WouldRemove| is_filled(self@, unit),
                units@ == all_units().take(9 + x).filter(pred),
            decreases 9 - x,
        {
            proof {
                lemma_units_valid(9 + x);
                lemma_filter_take_next(all_units(), pred, 9 + x);
            }
            let column = WouldRemove::Vertical { x };
            if self.unit_filled(column) {
                units.push(column);
            }
            x += 1;
        }
        let squares = SquareIndex::all();
        let mut n: usize = 0;
        while n < squares.len()
            invariant
                0 <= n <= 9,
                squares@.len() == 9,
                forall|i: int|
                    0 <= i < 9 ==> (#[trigger] squares@[i]).wf() && squares@[i] == SquareIndex::nth(
                        i,
                    ),
                pred == |unit: WouldRemove| is_filled(self@, unit),
                units@ == all_units().take(18 + n).filter(pred),
            decreases 9 - n,
        {
            proof {
                lemma_units_valid(18 + n);
                lemma_filter_take_next(all_units(), pred, 18 + n);
            }
            let square = WouldRemove::Square { index: squares[n] };
            if self.unit_filled(square) {
                units.push(square);
            }
            n += 1;
        }
        proof {
            assert(all_units().take(27) =~= all_units());
        }
        units
    }

    /// Clears every full unit, and returns how many units were full.
    ///
    /// The units are those that are full before anything is cleared: a cell
    /// that lies in two full units is cleared once and both units count.
    pub fn remove_filled(&mut self) -> (count: usize)
        ensures
            count == filled_units(old(self)@).len(),
            final(self)@ == cleared(old(self)@),
    {
        let mut workspace = *self;
        let mut count: usize = 0;
        let filled = self.find_filled();
        proof {
            lemma_filled_units_valid(self@);
        }
        let mut i: usize = 0;
        while i < filled.len()
            invariant
                i <= filled@.len(),
                *self == *old(self),
                filled@ == filled_units(self@),
                filled@.len() <= 27,
                forall|k: int| 0 <= k < filled@.len() ==> (#[trigger] filled@[k]).wf(),
                count == i,
                forall|cell: (int, int)|
                    #[trigger] workspace@.contains(cell) <==> self@.contains(cell) && !covered(
                        filled@,
                        i as int,
                        cell,
                    ),
            decreases filled@.len() - i,
        {
            count += 1;
            let unit = filled[i];
            let positions = unit.iter();
            let ghost before = workspace@;
            let mut k: usize = 0;
            proof {
                assert forall|cell: (int, int)| !among_first(unit, 0, cell) by {
                    lemma_among_first_next(unit, 0, cell);
                }
            }
            while k < 9
                invariant
                    k <= 9,
                    positions@.len() == 9,
                    forall|j: int|
                        0 <= j < 9 ==> (#[trigger] positions@[j]).wf() && positions@[j]@
                            == unit.cells()[j],
                    forall|cell: (int, int)|
                        #[trigger] workspace@.contains(cell) <==> before.contains(cell)
                            && !among_first(unit, k as int, cell),
                decreases 9 - k,
            {
                let ghost earlier = workspace@;
                workspace.set(positions[k], false);
                proof {
                    assert(positions@[k as int]@ == unit.cells()[k as int]);
                    assert forall|cell: (int, int)|
                        #[trigger] workspace@.contains(cell) <==> before.contains(cell)
                            && !among_first(unit, k + 1, cell) by {
                        lemma_among_first_next(unit, k as int, cell);
                        assert(earlier.contains(cell) <==> before.contains(cell) && !among_first(
                            unit,
                            k as int,
                            cell,
                        ));
                    }
                }
                k += 1;
            }
            proof {
                assert forall|cell: (int, int)|
                    #[trigger] workspace@.contains(cell) <==> self@.contains(cell) && !covered(
                        filled@,
                        i + 1,
                        cell,
                    ) by {
                    lemma_among_first_next(unit, 0, cell);
                    lemma_covered_next(filled@, i as int, cell);
                    assert(before.contains(cell) <==> self@.contains(cell) && !covered(
                        filled@,
                        i as int,
                        cell,
                    ));
                }
            }
            i += 1;
        }
        proof {
            assert(workspace@ =~= cleared(self@));
        }
        *self = workspace;
        count
    }
}

} // verus!
