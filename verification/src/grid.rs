//! Grids of integers, the form in which boards come in and go out: what makes
//! a grid well shaped, why one is refused, and how grids and cells turn into
//! each other.

use vstd::prelude::*;
use crate::index::{row_of, col_of};
use crate::board::{Cells, rank, digits_in_range};

verus! {

/// A grid of integers as mathematics: a sequence of rows.
pub type Grid = Seq<Seq<int>>;

/// The rows of integers that a vector of vectors holds.
pub open spec fn grid_view(input: Seq<Vec<isize>>) -> Grid {
    Seq::new(input.len(), |r: int| Seq::new(input[r]@.len(), |c: int| input[r]@[c] as int))
}

/// The value that a cell has in a grid of integers: its digit, or 0 if empty.
pub open spec fn cell_value(c: Option<u8>) -> int {
    rank(c)
}

/// The cell that an integer of a grid stands for: empty for 0, else the digit.
pub open spec fn cell_of_value(v: int) -> Option<u8> {
    if 1 <= v <= 9 {
        Some(v as u8)
    } else {
        None
    }
}

/// A grid is well shaped when it has nine rows of nine integers from 0 to 9.
pub open spec fn grid_ok(grid: Grid) -> bool {
    &&& grid.len() == 9
    &&& forall|r: int| 0 <= r < 9 ==> (#[trigger] grid[r]).len() == 9
    &&& forall|r: int, c: int| 0 <= r < 9 && 0 <= c < 9 ==> 0 <= #[trigger] grid[r][c] <= 9
}

/// The cells that a grid describes, in row-major order.
pub open spec fn cells_of_grid(grid: Grid) -> Cells {
    Seq::new(81, |i: int| cell_of_value(grid[row_of(i)][col_of(i)]))
}

/// The cells as a grid of nine rows of nine integers.
pub open spec fn grid_of_cells(cells: Cells) -> Grid {
    Seq::new(9, |r: int| Seq::new(9, |c: int| cell_value(cells[9 * r + c])))
}

/// What is wrong with a grid, if anything. The number of rows is looked at
/// first, then the length of every row, then the entries.
pub open spec fn grid_defect(grid: Grid) -> Option<GridError> {
    if grid.len() != 9 {
        Some(GridError::InvalidRowCount)
    } else if exists|r: int| 0 <= r < 9 && (#[trigger] grid[r]).len() != 9 {
        Some(GridError::InvalidColumnCount)
    } else if exists|r: int, c: int|
        0 <= r < 9 && 0 <= c < 9 && !(0 <= #[trigger] grid[r][c] <= 9) {
        Some(GridError::InvalidDigit)
    } else {
        None
    }
}

/// The ways in which a grid can fail to describe a board.
#[derive(Clone, Copy, Debug, PartialEq, Eq, Structural)]
pub enum GridError {
    /// The grid does not have nine rows.
    InvalidRowCount,
    /// Some row does not have nine entries.
    InvalidColumnCount,
    /// Some entry is not an integer from 0 to 9.
    InvalidDigit,
}

impl GridError {
    /// The text of the message for this error.
    pub open spec fn message_text(self) -> Seq<char> {
        match self {
            GridError::InvalidRowCount => "expected 9 rows"@,
            GridError::InvalidColumnCount => "expected 9 columns"@,
            GridError::InvalidDigit => "expected numbers 0-9"@,
        }
    }

    /// A short message that says what was expected.
    pub fn message(self) -> (m: &'static str)
        ensures
            m@ == self.message_text(),
    {
        match self {
            GridError::InvalidRowCount => "expected 9 rows",
            GridError::InvalidColumnCount => "expected 9 columns",
            GridError::InvalidDigit => "expected numbers 0-9",
        }
    }
}

/// A grid has no defect exactly when it is well shaped.
pub proof fn lemma_no_defect_iff_ok(grid: Grid)
    ensures
        grid_defect(grid) is None <==> grid_ok(grid),
{
}

/// Looks for what is wrong with a grid: the number of rows first, then the
/// length of every row, then the entries.
pub fn check_grid(input: &Vec<Vec<isize>>) -> (res: Result<(), GridError>)
    ensures
        res == match grid_defect(grid_view(input@)) {
            Some(e) => Err::<(), GridError>(e),
            None => Ok::<(), GridError>(()),
        },
{
    let ghost grid = grid_view(input@);
    if input.len() != 9 {
        return Err(GridError::InvalidRowCount);
    }
    let mut r: usize = 0;
    while r < 9
        invariant
            r <= 9,
            input.len() == 9,
            grid == grid_view(input@),
            forall|k: int| 0 <= k < r ==> (#[trigger] grid[k]).len() == 9,
        decreases 9 - r,
    {
        if input[r].len() != 9 {
            assert(grid[r as int].len() != 9);
            return Err(GridError::InvalidColumnCount);
        }
        r += 1;
    }
    let mut r: usize = 0;
    while r < 9
        invariant
            r <= 9,
            input.len() == 9,
            grid == grid_view(input@),
            forall|k: int| 0 <= k < 9 ==> (#[trigger] grid[k]).len() == 9,
            forall|k: int, c: int| 0 <= k < r && 0 <= c < 9 ==> 0 <= #[trigger] grid[k][c] <= 9,
        decreases 9 - r,
    {
        let row = &input[r];
        assert(grid[r as int].len() == 9);
        let mut c: usize = 0;
        while c < 9
            invariant
                c <= 9,
                r < 9,
                input.len() == 9,
                row == input[r as int],
                row.len() == 9,
                grid == grid_view(input@),
                forall|k: int| 0 <= k < 9 ==> (#[trigger] grid[k]).len() == 9,
                forall|k: int, c: int|
                    0 <= k < r && 0 <= c < 9 ==> 0 <= #[trigger] grid[k][c] <= 9,
                forall|k: int| 0 <= k < c ==> 0 <= #[trigger] grid[r as int][k] <= 9,
            decreases 9 - c,
        {
            let v: isize = row[c];
            if v < 0 || v > 9 {
                assert(!(0 <= grid[r as int][c as int] <= 9));
                return Err(GridError::InvalidDigit);
            }
            c += 1;
        }
        r += 1;
    }
    Ok(())
}

/// Turning a well-shaped grid into cells and the cells back into a grid gives
/// the grid again.
pub proof fn lemma_grid_round_trip(grid: Grid)
    requires
        grid_ok(grid),
    ensures
        grid_of_cells(cells_of_grid(grid)) == grid,
{
    let cells = cells_of_grid(grid);
    let back = grid_of_cells(cells);
    assert forall|r: int| 0 <= r < 9 implies #[trigger] back[r] == grid[r] by {
        assert(grid[r].len() == 9);
        assert forall|c: int| 0 <= c < 9 implies #[trigger] back[r][c] == grid[r][c] by {
            let i = 9 * r + c;
            assert(row_of(i) == r && col_of(i) == c);
            assert(cells[i] == cell_of_value(grid[r][c]));
            assert(0 <= grid[r][c] <= 9);
        }
        assert(back[r] =~= grid[r]);
    }
    assert(back =~= grid);
}

/// Turning 81 cells with digits from 1 to 9 into a grid gives a well-shaped
/// grid, and turning that grid into cells gives the cells again.
pub proof fn lemma_cells_round_trip(cells: Cells)
    requires
        cells.len() == 81,
        digits_in_range(cells),
    ensures
        grid_ok(grid_of_cells(cells)),
        cells_of_grid(grid_of_cells(cells)) == cells,
{
    let grid = grid_of_cells(cells);
    assert forall|r: int, c: int| 0 <= r < 9 && 0 <= c < 9 implies 0 <= #[trigger] grid[r][c]
        <= 9 by {
        let i = 9 * r + c;
        assert(grid[r][c] == cell_value(cells[i]));
    }
    let back = cells_of_grid(grid);
    assert forall|i: int| 0 <= i < 81 implies #[trigger] back[i] == cells[i] by {
        let r = row_of(i);
        let c = col_of(i);
        assert(9 * r + c == i);
        assert(grid[r][c] == cell_value(cells[i]));
    }
    assert(back =~= cells);
}

} // verus!
