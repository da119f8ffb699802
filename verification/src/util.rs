//! Coordinates, the size of a packed bitmap, and the text that shows a grid.

use vstd::prelude::*;
use vstd::string::StringExecFns;

verus! {

/// A signed coordinate on the board or inside a mino's container.
///
/// Coordinates are signed so that a position off the board can be held
/// before it is range-checked.
pub type Coordinate = i8;

/// The number of bytes needed to hold `bits` bits, one bit per cell.
pub fn min_bytes_for_bits(bits: usize) -> (bytes: usize)
    ensures
        bytes == (bits + 7) / 8,
{
    if bits % 8 == 0 {
        bits / 8
    } else {
        bits / 8 + 1
    }
}

/// How one cell of a grid is shown.
pub open spec fn cell_text(filled: bool) -> Seq<char> {
    if filled {
        "'1'"@
    } else {
        "'0'"@
    }
}

/// The cells of a row, each followed by a comma and a space but the last.
pub open spec fn cells_text(cells: Seq<bool>) -> Seq<char>
    decreases cells.len(),
{
    if cells.len() == 0 {
        Seq::empty()
    } else if cells.len() == 1 {
        cell_text(cells[0])
    } else {
        cells_text(cells.drop_last()) + ", "@ + cell_text(cells.last())
    }
}

/// How one row of a grid is shown: its cells between square brackets.
pub open spec fn row_text(cells: Seq<bool>) -> Seq<char> {
    "["@ + cells_text(cells) + "]"@
}

/// The rows of a grid, each followed by a comma and a space but the last.
pub open spec fn rows_text(grid: Seq<Seq<bool>>) -> Seq<char>
    decreases grid.len(),
{
    if grid.len() == 0 {
        Seq::empty()
    } else if grid.len() == 1 {
        row_text(grid[0])
    } else {
        rows_text(grid.drop_last()) + ", "@ + row_text(grid.last())
    }
}

/// How a grid is shown under a name: the name, and then the rows between
/// round brackets where there is a row at all. A single row without a name
/// is followed by a comma, as a tuple of one field is.
pub open spec fn grid_text(name: Seq<char>, grid: Seq<Seq<bool>>) -> Seq<char> {
    if grid.len() == 0 {
        name
    } else if grid.len() == 1 && name.len() == 0 {
        name + "("@ + rows_text(grid) + ",)"@
    } else {
        name + "("@ + rows_text(grid) + ")"@
    }
}

/// Whether `grid` holds, row by row, what `get` answers for the cells
/// `(x, y)` of a grid of the given size.
pub open spec fn answers<F: Fn(usize, usize) -> bool>(
    get: F,
    rows: usize,
    columns: usize,
    grid: Seq<Seq<bool>>,
) -> bool {
    &&& grid.len() == rows
    &&& forall|y: int| 0 <= y < rows ==> (#[trigger] grid[y]).len() == columns
    &&& forall|x: usize, y: usize|
        x < columns && y < rows ==> call_ensures(get, (x, y), #[trigger] grid[y as int][x as int])
}

/// One more cell at the end of a row is shown after a comma and a space,
/// unless it is the first.
proof fn lemma_cells_text_push(cells: Seq<bool>, filled: bool)
    ensures
        cells_text(cells.push(filled)) == if cells.len() == 0 {
            cell_text(filled)
        } else {
            cells_text(cells) + ", "@ + cell_text(filled)
        },
{
    assert(cells.push(filled).drop_last() =~= cells);
}

/// One more row at the end of a grid is shown after a comma and a space,
/// unless it is the first.
proof fn lemma_rows_text_push(grid: Seq<Seq<bool>>, row: Seq<bool>)
    ensures
        rows_text(grid.push(row)) == if grid.len() == 0 {
            row_text(row)
        } else {
            rows_text(grid) + ", "@ + row_text(row)
        },
{
    assert(grid.push(row).drop_last() =~= grid);
}

/// The text that shows a grid of `rows` rows and `columns` columns under
/// the name `name`, where `get(x, y)` says whether the cell `(x, y)` is
/// filled. The function is asked once for each cell, row by row.
pub fn grid_fmt<F: Fn(usize, usize) -> bool>(name: &str, rows: usize, columns: usize, get: F) -> (text:
    String)
    requires
        forall|x: usize, y: usize| x < columns && y < rows ==> #[trigger] call_requires(get, (x, y)),
    ensures
        exists|grid: Seq<Seq<bool>>|
            answers(get, rows, columns, grid) && text@ == #[trigger] grid_text(name@, grid),
{
    let mut text = String::new();
    text.append(name);
    let ghost mut grid: Seq<Seq<bool>> = Seq::empty();
    if rows > 0 {
        text.append("(");
    }
    let mut y: usize = 0;
    while y < rows
        invariant
            y <= rows,
            forall|x: usize, y: usize|
                x < columns && y < rows ==> #[trigger] call_requires(get, (x, y)),
            answers(get, y, columns, grid),
            text@ == if rows == 0 {
                name@
            } else {
                name@ + "("@ + rows_text(grid)
            },
        decreases rows - y,
    {
        if y > 0 {
            text.append(", ");
        }
        text.append("[");
        let ghost before = text@;
        let ghost mut cells: Seq<bool> = Seq::empty();
        let mut x: usize = 0;
        while x < columns
            invariant
                x <= columns,
                y < rows,
                forall|x: usize, y: usize|
                    x < columns && y < rows ==> #[trigger] call_requires(get, (x, y)),
                cells.len() == x,
                forall|i: usize| i < x ==> call_ensures(get, (i, y), #[trigger] cells[i as int]),
                text@ == before + cells_text(cells),
            decreases columns - x,
        {
            let filled = get(x, y);
            if x > 0 {
                text.append(", ");
            }
            if filled {
                text.append("'1'");
            } else {
                text.append("'0'");
            }
            proof {
                lemma_cells_text_push(cells, filled);
                cells = cells.push(filled);
            }
            x += 1;
        }
        text.append("]");
        proof {
            lemma_rows_text_push(grid, cells);
            grid = grid.push(cells);
        }
        y += 1;
    }
    if rows == 1 && name.is_empty() {
        text.append(",)");
    } else if rows > 0 {
        text.append(")");
    }
    proof {
        assert(answers(get, rows, columns, grid));
        assert(text@ == grid_text(name@, grid));
    }
    text
}

/// A value that is made of one item, repeated.
pub trait SplatExt: Sized {
    /// The item.
    type Item;

    /// The value that holds `item` in every place.
    fn splat(item: Self::Item) -> Self;
}

impl<T: Clone> SplatExt for (T, T) {
    type Item = T;

    /// The pair that holds a clone of `item` and `item` itself.
    fn splat(item: T) -> (pair: Self)
        ensures
            cloned(item, pair.0),
            pair.1 == item,
    {
        (item.clone(), item)
    }
}

} // verus!
