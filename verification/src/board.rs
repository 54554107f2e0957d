//! The mathematical model of a board: a sequence of 81 optional digits, the
//! digits used per row, column and box, and what it means for a board to be
//! solved or to complete another.

use vstd::prelude::*;
use crate::index::{row_of, col_of, box_of};

verus! {

/// The cells of a board, in row-major order. `None` is an empty cell.
pub type Cells = Seq<Option<u8>>;

/// Cells `i` and `j` lie in a common row, column or box.
pub open spec fn shares_group(i: int, j: int) -> bool {
    row_of(i) == row_of(j) || col_of(i) == col_of(j) || box_of(i) == box_of(j)
}

/// Cells `i` and `j` are different and lie in a common row, column or box.
pub open spec fn peer(i: int, j: int) -> bool {
    i != j && shares_group(i, j)
}

/// Every occupied cell holds a digit from 1 to 9.
pub open spec fn digits_in_range(cells: Cells) -> bool {
    forall|i: int| 0 <= i < 81 ==> match #[trigger] cells[i] {
        Some(d) => 1 <= d <= 9,
        None => true,
    }
}

/// The row of each cell, as a function.
pub open spec fn by_row() -> spec_fn(int) -> int {
    |i: int| row_of(i)
}

/// The column of each cell, as a function.
pub open spec fn by_col() -> spec_fn(int) -> int {
    |i: int| col_of(i)
}

/// The box of each cell, as a function.
pub open spec fn by_box() -> spec_fn(int) -> int {
    |i: int| box_of(i)
}

/// The digits held by those of the first `n` cells that `group` sends to `g`.
pub open spec fn digits_among(cells: Cells, group: spec_fn(int) -> int, g: int, n: int) -> Set<u8> {
    Set::new(|d: u8| exists|i: int| 0 <= i < n && group(i) == g && #[trigger] cells[i] == Some(d))
}

/// The digits that occur in row `r`.
pub open spec fn row_digits(cells: Cells, r: int) -> Set<u8> {
    digits_among(cells, by_row(), r, 81)
}

/// The digits that occur in column `c`.
pub open spec fn col_digits(cells: Cells, c: int) -> Set<u8> {
    digits_among(cells, by_col(), c, 81)
}

/// The digits that occur in box `b`.
pub open spec fn box_digits(cells: Cells, b: int) -> Set<u8> {
    digits_among(cells, by_box(), b, 81)
}

/// No cell that shares a row, column or box with `idx` holds digit `d`.
/// The cell `idx` itself counts too.
pub open spec fn digit_free(cells: Cells, d: u8, idx: int) -> bool {
    forall|j: int| 0 <= j < 81 && shares_group(idx, j) ==> #[trigger] cells[j] != Some(d)
}

/// No peer of `idx` holds digit `d`.
pub open spec fn no_peer_holds(cells: Cells, d: u8, idx: int) -> bool {
    forall|j: int| 0 <= j < 81 && peer(idx, j) ==> #[trigger] cells[j] != Some(d)
}

/// A board is solved when every cell is occupied and no two cells of a row,
/// column or box hold the same digit.
pub open spec fn solved(cells: Cells) -> bool {
    &&& cells.len() == 81
    &&& forall|i: int| 0 <= i < 81 ==> (#[trigger] cells[i]) is Some
    &&& forall|i: int, j: int|
        0 <= i < 81 && 0 <= j < 81 && peer(i, j) ==> #[trigger] cells[i] != #[trigger] cells[j]
}

/// No two occupied cells of a row, column or box hold the same digit.
pub open spec fn conflict_free(cells: Cells) -> bool {
    forall|i: int, j: int|
        0 <= i < 81 && 0 <= j < 81 && peer(i, j) && (#[trigger] cells[i]) is Some
            ==> cells[i] != #[trigger] cells[j]
}

/// Board `g` completes board `base` from cell `start` on.
///
/// `g` agrees with `base` on every cell before `start` and on every cell that
/// `base` has occupied; every cell of `g` from `start` on holds a digit from
/// 1 to 9; and each cell from `start` on that `base` left empty holds in `g` a
/// digit that none of its peers holds.
pub open spec fn completes(g: Cells, base: Cells, start: int) -> bool {
    &&& g.len() == 81
    &&& forall|i: int| 0 <= i < 81 && (i < start || base[i] is Some) ==> #[trigger] g[i] == base[i]
    &&& forall|i: int|
        start <= i < 81 ==> match #[trigger] g[i] {
            Some(d) => 1 <= d <= 9,
            None => false,
        }
    &&& forall|i: int, j: int|
        start <= i < 81 && base[i] is None && 0 <= j < 81 && peer(i, j) ==> #[trigger] g[i]
            != #[trigger] g[j]
}

/// The number by which cells are ordered: 0 for an empty cell, else the digit.
pub open spec fn rank(c: Option<u8>) -> int {
    match c {
        Some(d) => d as int,
        None => 0,
    }
}

/// Board `a` comes before board `b`, or equals it, in the order of the search:
/// at the first cell where they differ, `a` holds the smaller digit.
pub open spec fn search_le(a: Cells, b: Cells) -> bool {
    a == b || exists|k: int|
        0 <= k < 81 && rank(#[trigger] a[k]) < rank(b[k]) && forall|i: int|
            0 <= i < k ==> #[trigger] a[i] == b[i]
}

/// The board with digit `d` at cell `idx`.
pub open spec fn with_digit(cells: Cells, d: u8, idx: int) -> Cells {
    cells.update(idx, Some(d))
}

/// The board with cell `idx` empty.
pub open spec fn without_digit(cells: Cells, idx: int) -> Cells {
    cells.update(idx, None)
}

/// A board with an empty cell is not solved.
pub proof fn lemma_empty_cell_not_solved(cells: Cells, i: int)
    requires
        0 <= i < 81,
        cells[i] is None,
    ensures
        !solved(cells),
{
}

/// A board on which two cells of one row, column or box hold the same digit
/// is not solved.
pub proof fn lemma_repeated_digit_not_solved(cells: Cells, i: int, j: int)
    requires
        0 <= i < 81,
        0 <= j < 81,
        peer(i, j),
        cells[i] == cells[j],
    ensures
        !solved(cells),
{
}

/// Where none of the first `n` cells is occupied, no group has a digit among
/// them.
pub proof fn lemma_empty_cells_no_digits(cells: Cells, group: spec_fn(int) -> int, g: int, n: int)
    requires
        forall|i: int| 0 <= i < n ==> (#[trigger] cells[i]) is None,
    ensures
        digits_among(cells, group, g, n) == Set::<u8>::empty(),
{
    assert(digits_among(cells, group, g, n) =~= Set::<u8>::empty());
}

/// Looking at one cell more adds its digit to the digits of its group and
/// leaves those of the other groups as they are.
pub proof fn lemma_digits_with_next_cell(cells: Cells, group: spec_fn(int) -> int, g: int, n: int)
    requires
        0 <= n < cells.len(),
    ensures
        digits_among(cells, group, g, n + 1) == match cells[n] {
            Some(d) if group(n) == g => digits_among(cells, group, g, n).insert(d),
            _ => digits_among(cells, group, g, n),
        },
{
    let before = digits_among(cells, group, g, n);
    let after = digits_among(cells, group, g, n + 1);
    let want = match cells[n] {
        Some(d) if group(n) == g => before.insert(d),
        _ => before,
    };
    assert forall|e: u8| after.contains(e) <==> want.contains(e) by {
        if after.contains(e) {
            let i = choose|i: int| 0 <= i < n + 1 && group(i) == g && #[trigger] cells[i] == Some(e);
            if i < n {
                assert(before.contains(e));
            }
        }
        if want.contains(e) {
            if before.contains(e) {
                let i = choose|i: int| 0 <= i < n && group(i) == g && #[trigger] cells[i] == Some(e);
                assert(cells[i] == Some(e));
            } else {
                assert(cells[n] == Some(e));
            }
        }
    }
    assert(after =~= want);
}

/// Where a group's digits among the first `n` cells have digit `d`, one of
/// those cells is of that group and holds `d`.
pub proof fn lemma_digit_has_holder(
    cells: Cells,
    group: spec_fn(int) -> int,
    g: int,
    n: int,
    d: u8,
) -> (k: int)
    requires
        digits_among(cells, group, g, n).contains(d),
    ensures
        0 <= k < n,
        group(k) == g,
        cells[k] == Some(d),
{
    choose|i: int| 0 <= i < n && group(i) == g && #[trigger] cells[i] == Some(d)
}

/// A digit that a cell of a group holds is among the group's digits.
pub proof fn lemma_holder_gives_digit(cells: Cells, group: spec_fn(int) -> int, n: int, k: int)
    requires
        0 <= k < n,
        cells[k] is Some,
    ensures
        digits_among(cells, group, group(k), n).contains(cells[k].unwrap()),
{
}

/// Writing a digit to an empty cell adds it to the digits of the cell's
/// group and leaves those of the other groups as they are.
pub proof fn lemma_digits_after_write(
    cells: Cells,
    group: spec_fn(int) -> int,
    g: int,
    idx: int,
    d: u8,
)
    requires
        cells.len() == 81,
        0 <= idx < 81,
        cells[idx] is None,
    ensures
        digits_among(with_digit(cells, d, idx), group, g, 81) == if group(idx) == g {
            digits_among(cells, group, g, 81).insert(d)
        } else {
            digits_among(cells, group, g, 81)
        },
{
    let next = with_digit(cells, d, idx);
    let before = digits_among(cells, group, g, 81);
    let after = digits_among(next, group, g, 81);
    let want = if group(idx) == g {
        before.insert(d)
    } else {
        before
    };
    assert forall|e: u8| after.contains(e) <==> want.contains(e) by {
        if after.contains(e) {
            let i = lemma_digit_has_holder(next, group, g, 81, e);
            if i != idx {
                assert(cells[i] == Some(e));
            }
        }
        if want.contains(e) {
            if before.contains(e) {
                let i = lemma_digit_has_holder(cells, group, g, 81, e);
                assert(next[i] == Some(e));
            } else {
                assert(next[idx] == Some(e));
            }
        }
    }
    assert(after =~= want);
}

/// Emptying a cell whose digit no other cell of its group holds takes the
/// digit from the digits of the cell's group and leaves those of the other
/// groups as they are.
pub proof fn lemma_digits_after_clear(
    cells: Cells,
    group: spec_fn(int) -> int,
    g: int,
    idx: int,
    d: u8,
)
    requires
        cells.len() == 81,
        0 <= idx < 81,
        cells[idx] == Some(d),
        forall|j: int|
            0 <= j < 81 && j != idx && group(j) == group(idx) ==> #[trigger] cells[j] != Some(d),
    ensures
        digits_among(without_digit(cells, idx), group, g, 81) == if group(idx) == g {
            digits_among(cells, group, g, 81).remove(d)
        } else {
            digits_among(cells, group, g, 81)
        },
{
    let next = without_digit(cells, idx);
    let before = digits_among(cells, group, g, 81);
    let after = digits_among(next, group, g, 81);
    let want = if group(idx) == g {
        before.remove(d)
    } else {
        before
    };
    assert forall|e: u8| after.contains(e) <==> want.contains(e) by {
        if after.contains(e) {
            let i = lemma_digit_has_holder(next, group, g, 81, e);
            assert(cells[i] == Some(e));
        }
        if want.contains(e) {
            let i = lemma_digit_has_holder(cells, group, g, 81, e);
            assert(next[i] == Some(e));
        }
    }
    assert(after =~= want);
}

} // verus!
