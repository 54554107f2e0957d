//! The abstract state of a puzzle: its cells and the three families of
//! used-digit sets, with the operations that place and remove a digit.

use vstd::prelude::*;
use crate::index::{row_of, col_of, box_of};
use crate::board::{
    Cells, row_digits, col_digits, box_digits, digits_in_range, digit_free, no_peer_holds,
    shares_group, peer, by_row, by_col, by_box, lemma_digits_after_write, lemma_digits_after_clear,
    lemma_digit_has_holder, lemma_holder_gives_digit,
};

verus! {

/// What a puzzle is, as mathematics.
pub struct PuzzleView {
    /// The 81 cells in row-major order.
    pub cells: Cells,
    /// For each row, the digits recorded as used in it.
    pub rows: Seq<Set<u8>>,
    /// For each column, the digits recorded as used in it.
    pub cols: Seq<Set<u8>>,
    /// For each box, the digits recorded as used in it.
    pub boxes: Seq<Set<u8>>,
}

impl PuzzleView {
    /// The used-digit sets say exactly what the cells hold: a digit is recorded
    /// for a row, column or box if and only if some cell of it holds the digit.
    pub open spec fn consistent(self) -> bool {
        &&& self.cells.len() == 81
        &&& self.rows.len() == 9
        &&& self.cols.len() == 9
        &&& self.boxes.len() == 9
        &&& digits_in_range(self.cells)
        &&& forall|g: int| 0 <= g < 9 ==> #[trigger] self.rows[g] == row_digits(self.cells, g)
        &&& forall|g: int| 0 <= g < 9 ==> #[trigger] self.cols[g] == col_digits(self.cells, g)
        &&& forall|g: int| 0 <= g < 9 ==> #[trigger] self.boxes[g] == box_digits(self.cells, g)
    }

    /// Digit `d` is recorded neither for the row, nor for the column, nor for
    /// the box of cell `idx`.
    pub open spec fn allows(self, d: u8, idx: int) -> bool {
        &&& !self.rows[row_of(idx)].contains(d)
        &&& !self.cols[col_of(idx)].contains(d)
        &&& !self.boxes[box_of(idx)].contains(d)
    }

    /// The state after digit `d` is written to cell `idx` and recorded for its
    /// row, column and box.
    pub open spec fn place(self, d: u8, idx: int) -> PuzzleView {
        PuzzleView {
            cells: self.cells.update(idx, Some(d)),
            rows: self.rows.update(row_of(idx), self.rows[row_of(idx)].insert(d)),
            cols: self.cols.update(col_of(idx), self.cols[col_of(idx)].insert(d)),
            boxes: self.boxes.update(box_of(idx), self.boxes[box_of(idx)].insert(d)),
        }
    }

    /// The state after cell `idx` is emptied and digit `d` is struck from the
    /// records of its row, column and box.
    pub open spec fn remove(self, d: u8, idx: int) -> PuzzleView {
        PuzzleView {
            cells: self.cells.update(idx, None),
            rows: self.rows.update(row_of(idx), self.rows[row_of(idx)].remove(d)),
            cols: self.cols.update(col_of(idx), self.cols[col_of(idx)].remove(d)),
            boxes: self.boxes.update(box_of(idx), self.boxes[box_of(idx)].remove(d)),
        }
    }
}

/// In a consistent state, the records allow a digit at a cell exactly when no
/// cell of its row, column or box holds the digit.
pub proof fn lemma_allows_iff_digit_free(v: PuzzleView, d: u8, idx: int)
    requires
        v.consistent(),
        0 <= idx < 81,
    ensures
        v.allows(d, idx) <==> digit_free(v.cells, d, idx),
{
    let r = row_of(idx);
    let c = col_of(idx);
    let b = box_of(idx);
    assert(v.rows[r] == row_digits(v.cells, r));
    assert(v.cols[c] == col_digits(v.cells, c));
    assert(v.boxes[b] == box_digits(v.cells, b));
    if v.allows(d, idx) {
        assert forall|j: int| 0 <= j < 81 && shares_group(idx, j) implies #[trigger] v.cells[j]
            != Some(d) by {
            if v.cells[j] == Some(d) {
                lemma_holder_gives_digit(v.cells, by_row(), 81, j);
                lemma_holder_gives_digit(v.cells, by_col(), 81, j);
                lemma_holder_gives_digit(v.cells, by_box(), 81, j);
            }
        }
    } else {
        let j = if v.rows[r].contains(d) {
            lemma_digit_has_holder(v.cells, by_row(), r, 81, d)
        } else if v.cols[c].contains(d) {
            lemma_digit_has_holder(v.cells, by_col(), c, 81, d)
        } else {
            lemma_digit_has_holder(v.cells, by_box(), b, 81, d)
        };
        assert(shares_group(idx, j));
    }
}

/// Writing a digit from 1 to 9 to an empty cell keeps the state consistent.
pub proof fn lemma_place_consistent(v: PuzzleView, d: u8, idx: int)
    requires
        v.consistent(),
        0 <= idx < 81,
        v.cells[idx] is None,
        1 <= d <= 9,
    ensures
        v.place(d, idx).consistent(),
{
    let w = v.place(d, idx);
    assert forall|g: int| 0 <= g < 9 implies #[trigger] w.rows[g] == row_digits(w.cells, g) by {
        assert(v.rows[g] == row_digits(v.cells, g));
        lemma_digits_after_write(v.cells, by_row(), g, idx, d);
    }
    assert forall|g: int| 0 <= g < 9 implies #[trigger] w.cols[g] == col_digits(w.cells, g) by {
        assert(v.cols[g] == col_digits(v.cells, g));
        lemma_digits_after_write(v.cells, by_col(), g, idx, d);
    }
    assert forall|g: int| 0 <= g < 9 implies #[trigger] w.boxes[g] == box_digits(w.cells, g) by {
        assert(v.boxes[g] == box_digits(v.cells, g));
        lemma_digits_after_write(v.cells, by_box(), g, idx, d);
    }
}

/// Emptying a cell whose digit none of its peers holds keeps the state
/// consistent.
pub proof fn lemma_remove_consistent(v: PuzzleView, d: u8, idx: int)
    requires
        v.consistent(),
        0 <= idx < 81,
        v.cells[idx] == Some(d),
        no_peer_holds(v.cells, d, idx),
    ensures
        v.remove(d, idx).consistent(),
{
    let w = v.remove(d, idx);
    assert forall|j: int| 0 <= j < 81 && j != idx implies (shares_group(idx, j) ==> #[trigger] v.cells[j] != Some(d)) by {
        assert(shares_group(idx, j) ==> peer(idx, j));
    }
    assert forall|g: int| 0 <= g < 9 implies #[trigger] w.rows[g] == row_digits(w.cells, g) by {
        assert(v.rows[g] == row_digits(v.cells, g));
        lemma_digits_after_clear(v.cells, by_row(), g, idx, d);
    }
    assert forall|g: int| 0 <= g < 9 implies #[trigger] w.cols[g] == col_digits(w.cells, g) by {
        assert(v.cols[g] == col_digits(v.cells, g));
        lemma_digits_after_clear(v.cells, by_col(), g, idx, d);
    }
    assert forall|g: int| 0 <= g < 9 implies #[trigger] w.boxes[g] == box_digits(w.cells, g) by {
        assert(v.boxes[g] == box_digits(v.cells, g));
        lemma_digits_after_clear(v.cells, by_box(), g, idx, d);
    }
}

/// Placing a digit that the records allow at an empty cell and then removing
/// it gives back the state from before: the cells and all three families of
/// used-digit sets.
pub proof fn lemma_place_then_remove(v: PuzzleView, d: u8, idx: int)
    requires
        v.consistent(),
        0 <= idx < 81,
        v.cells[idx] is None,
        v.allows(d, idx),
    ensures
        v.place(d, idx).remove(d, idx) == v,
{
    let w = v.place(d, idx).remove(d, idx);
    assert(w.cells =~= v.cells);
    assert(v.rows[row_of(idx)].insert(d).remove(d) =~= v.rows[row_of(idx)]);
    assert(v.cols[col_of(idx)].insert(d).remove(d) =~= v.cols[col_of(idx)]);
    assert(v.boxes[box_of(idx)].insert(d).remove(d) =~= v.boxes[box_of(idx)]);
    assert(w.rows =~= v.rows);
    assert(w.cols =~= v.cols);
    assert(w.boxes =~= v.boxes);
}

} // verus!
