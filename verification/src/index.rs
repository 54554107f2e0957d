//! Cell-indexing arithmetic for the 9×9 board.
//!
//! Cells are numbered 0 to 80 in row-major order. The three functions here map
//! a cell number to the row, the column and the 3×3 box that the cell lies in.

use vstd::prelude::*;

verus! {

/// The row of cell `idx`.
pub open spec fn row_of(idx: int) -> int {
    idx / 9
}

/// The column of cell `idx`.
pub open spec fn col_of(idx: int) -> int {
    idx % 9
}

/// The box of cell `idx`; boxes are numbered in row-major order of 3×3 blocks.
pub open spec fn box_of(idx: int) -> int {
    3 * (idx / 27) + (idx % 9) / 3
}

/// Row of the cell at linear position `idx`.
pub fn row_index(idx: usize) -> (r: usize)
    ensures
        r == row_of(idx as int),
        idx < 81 ==> r < 9,
{
    idx / 9
}

/// Column of the cell at linear position `idx`.
pub fn col_index(idx: usize) -> (c: usize)
    ensures
        c == col_of(idx as int),
        c < 9,
{
    idx % 9
}

/// Box of the cell at linear position `idx`.
pub fn box_index(idx: usize) -> (b: usize)
    ensures
        b == box_of(idx as int),
        idx < 81 ==> b < 9,
{
    3 * (idx / 27) + (idx % 9) / 3
}

/// The cell in row `r` and column `c`.
pub open spec fn cell_at(r: int, c: int) -> int {
    9 * r + c
}

/// The cells of box `b`.
pub open spec fn box_cells(b: int) -> Set<int> {
    Set::new(|i: int| 0 <= i < 81 && box_of(i) == b)
}

/// The cells of the 3×3 block that is `b / 3` blocks down and `b % 3` blocks
/// to the right: three neighbouring rows crossed with three neighbouring
/// columns.
pub open spec fn block_cells(b: int) -> Set<int> {
    Set::new(
        |i: int|
            0 <= i < 81 && 3 * (b / 3) <= row_of(i) < 3 * (b / 3) + 3 && 3 * (b % 3) <= col_of(i) < 3
                * (b % 3) + 3,
    )
}

/// Every cell lies in one of nine rows, one of nine columns and one of nine
/// boxes.
pub proof fn lemma_groups_in_range(i: int)
    requires
        0 <= i < 81,
    ensures
        0 <= row_of(i) < 9,
        0 <= col_of(i) < 9,
        0 <= box_of(i) < 9,
{
}

/// Row and column together name a cell, and every pair of a row and a column
/// names one: the cell is found again from its row and column, and the row
/// and column from the cell.
pub proof fn lemma_row_col_one_to_one()
    ensures
        forall|i: int| 0 <= i < 81 ==> cell_at(#[trigger] row_of(i), col_of(i)) == i,
        forall|r: int, c: int|
            0 <= r < 9 && 0 <= c < 9 ==> {
                let i = #[trigger] cell_at(r, c);
                0 <= i < 81 && row_of(i) == r && col_of(i) == c
            },
        forall|i: int, j: int|
            0 <= i < 81 && 0 <= j < 81 && #[trigger] row_of(i) == #[trigger] row_of(j) && col_of(i)
                == col_of(j) ==> i == j,
{
}

/// The box of a cell is found from its row and column: boxes are numbered in
/// row-major order of blocks.
pub proof fn lemma_box_from_row_col(i: int)
    requires
        0 <= i < 81,
    ensures
        box_of(i) == 3 * (row_of(i) / 3) + col_of(i) / 3,
{
}

/// The cells of a box are exactly those of one 3×3 block, and there are nine
/// of them.
pub proof fn lemma_box_is_block(b: int)
    requires
        0 <= b < 9,
    ensures
        box_cells(b) == block_cells(b),
        box_cells(b).finite(),
        box_cells(b).len() == 9,
{
    assert(box_cells(b) =~= block_cells(b));
    let t = 27 * (b / 3) + 3 * (b % 3);
    let listed = Set::<int>::empty().insert(t).insert(t + 1).insert(t + 2).insert(t + 9).insert(
        t + 10,
    ).insert(t + 11).insert(t + 18).insert(t + 19).insert(t + 20);
    assert(box_cells(b) =~= listed);
}

/// Different boxes have no cell in common, and every cell is in some box.
pub proof fn lemma_boxes_partition(i: int)
    requires
        0 <= i < 81,
    ensures
        box_cells(box_of(i)).contains(i),
        forall|b: int| #[trigger] box_cells(b).contains(i) ==> b == box_of(i),
{
}

} // verus!
