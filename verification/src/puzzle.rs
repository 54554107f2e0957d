//! The puzzle: 81 cells and, for each row, column and box, the set of digits
//! already used in it.

use vstd::prelude::*;
use std::collections::HashSet;
use crate::index::{row_index, col_index, box_index, row_of, col_of};
use crate::board::{
    Cells, digit_free, no_peer_holds, row_digits, col_digits, box_digits, solved, peer, completes,
    search_le, rank, with_digit, digits_among, by_row, by_col, by_box, lemma_digit_has_holder,
    lemma_holder_gives_digit, lemma_digits_with_next_cell, lemma_empty_cells_no_digits,
};
use crate::grid::{grid_defect, grid_view, check_grid, cells_of_grid, grid_of_cells, cell_value};
use crate::model::{
    PuzzleView, lemma_allows_iff_digit_free, lemma_place_consistent, lemma_remove_consistent,
    lemma_place_then_remove,
};
use crate::search::{
    occupied_between, lemma_full_board_completes_itself, lemma_used_digit_excluded,
    lemma_completion_descends, lemma_completion_ascends, lemma_first_digit_decides,
};

verus! {

broadcast use vstd::std_specs::hash::group_hash_axioms;

/// A 9×9 board with its used-digit sets.
#[derive(Debug, PartialEq)]
pub struct Puzzle {
    nums: [Option<u8>; 81],
    rows: Vec<HashSet<u8>>,
    cols: Vec<HashSet<u8>>,
    boxes: Vec<HashSet<u8>>,
}

impl View for Puzzle {
    type V = PuzzleView;

    closed spec fn view(&self) -> PuzzleView {
        PuzzleView {
            cells: self.nums@,
            rows: Seq::new(self.rows@.len(), |g: int| self.rows@[g]@),
            cols: Seq::new(self.cols@.len(), |g: int| self.cols@[g]@),
            boxes: Seq::new(self.boxes@.len(), |g: int| self.boxes@[g]@),
        }
    }
}

/// Nine empty sets of digits.
fn empty_sets() -> (sets: Vec<HashSet<u8>>)
    ensures
        sets.len() == 9,
        forall|g: int| 0 <= g < 9 ==> (#[trigger] sets@[g])@ == Set::<u8>::empty(),
{
    let mut sets: Vec<HashSet<u8>> = Vec::with_capacity(9);
    let mut k: usize = 0;
    while k < 9
        invariant
            k <= 9,
            sets.len() == k,
            forall|g: int| 0 <= g < k ==> (#[trigger] sets@[g])@ == Set::<u8>::empty(),
        decreases 9 - k,
    {
        sets.push(HashSet::new());
        k += 1;
    }
    sets
}

impl Puzzle {
    /// The used-digit sets agree with the cells.
    pub open spec fn wf(&self) -> bool {
        self@.consistent()
    }

    /// A board with every cell empty.
    fn empty() -> (p: Puzzle)
        ensures
            p.wf(),
            forall|i: int| 0 <= i < 81 ==> (#[trigger] p@.cells[i]) is None,
    {
        let puzz = Puzzle {
            nums: [None; 81],
            rows: empty_sets(),
            cols: empty_sets(),
            boxes: empty_sets(),
        };
        proof {
            let v = puzz@;
            assert forall|g: int| 0 <= g < 9 implies #[trigger] v.rows[g] == row_digits(
                v.cells,
                g,
            ) by {
                lemma_empty_cells_no_digits(v.cells, by_row(), g, 81);
            }
            assert forall|g: int| 0 <= g < 9 implies #[trigger] v.cols[g] == col_digits(
                v.cells,
                g,
            ) by {
                lemma_empty_cells_no_digits(v.cells, by_col(), g, 81);
            }
            assert forall|g: int| 0 <= g < 9 implies #[trigger] v.boxes[g] == box_digits(
                v.cells,
                g,
            ) by {
                lemma_empty_cells_no_digits(v.cells, by_box(), g, 81);
            }
        }
        puzz
    }

    /// Builds the puzzle that a grid of nine rows of nine integers describes,
    /// where 0 stands for an empty cell and 1 to 9 for a digit.
    ///
    /// A grid of another shape, or with another integer in it, is refused with
    /// the message of its first defect. Digits that repeat in a row, column or
    /// box are not looked for.
    pub fn new(input: Vec<Vec<isize>>) -> (res: Result<Puzzle, &'static str>)
        ensures
            match grid_defect(grid_view(input@)) {
                Some(e) => res matches Err(m) && m@ == e.message_text(),
                None => res matches Ok(p) && p.wf() && p@.cells == cells_of_grid(
                    grid_view(input@),
                ),
            },
    {
        match check_grid(&input) {
            Err(e) => {
                return Err(e.message());
            },
            Ok(_) => {},
        }
        let ghost grid = grid_view(input@);
        let ghost want = cells_of_grid(grid);
        let mut puzz = Puzzle::empty();
        let mut i: usize = 0;
        while i < 9
            invariant
                i <= 9,
                input.len() == 9,
                grid == grid_view(input@),
                want == cells_of_grid(grid),
                grid_defect(grid) is None,
                puzz.wf(),
                forall|k: int| 0 <= k < 9 * i ==> #[trigger] puzz@.cells[k] == want[k],
                forall|k: int| 9 * i <= k < 81 ==> (#[trigger] puzz@.cells[k]) is None,
            decreases 9 - i,
        {
            let row = &input[i];
            assert(grid[i as int].len() == 9);
            let mut j: usize = 0;
            while j < 9
                invariant
                    j <= 9,
                    i < 9,
                    input.len() == 9,
                    row == input[i as int],
                    row.len() == 9,
                    grid == grid_view(input@),
                    want == cells_of_grid(grid),
                    grid_defect(grid) is None,
                    puzz.wf(),
                    forall|k: int| 0 <= k < 9 * i + j ==> #[trigger] puzz@.cells[k] == want[k],
                    forall|k: int| 9 * i + j <= k < 81 ==> (#[trigger] puzz@.cells[k]) is None,
                decreases 9 - j,
            {
                let v: isize = row[j];
                let idx: usize = i * 9 + j;
                assert(row_of(idx as int) == i && col_of(idx as int) == j);
                assert(0 <= grid[i as int][j as int] <= 9);
                assert(grid[i as int][j as int] == v);
                if v != 0 {
                    puzz.write_at(v as u8, idx);
                }
                j += 1;
            }
            i += 1;
        }
        assert(puzz@.cells =~= want);
        Ok(puzz)
    }

    /// The board as a grid of nine rows of nine integers: the digit of each
    /// cell, or 0 for an empty cell.
    pub fn to_grid(&self) -> (grid: Vec<Vec<isize>>)
        ensures
            grid_view(grid@) == grid_of_cells(self@.cells),
    {
        let mut res: Vec<Vec<isize>> = Vec::with_capacity(9);
        let mut i: usize = 0;
        while i < 9
            invariant
                i <= 9,
                res.len() == i,
                forall|r: int| 0 <= r < i ==> (#[trigger] res@[r])@.len() == 9,
                forall|r: int, c: int|
                    0 <= r < i && 0 <= c < 9 ==> (#[trigger] res@[r]@[c]) as int
                        == cell_value(self.nums@[9 * r + c]),
            decreases 9 - i,
        {
            let mut row: Vec<isize> = Vec::with_capacity(9);
            let mut j: usize = 0;
            while j < 9
                invariant
                    j <= 9,
                    i < 9,
                    row.len() == j,
                    forall|c: int|
                        0 <= c < j ==> (#[trigger] row@[c]) as int == cell_value(
                            self.nums@[9 * i + c],
                        ),
                decreases 9 - j,
            {
                match self.nums[i * 9 + j] {
                    Some(n) => row.push(n as isize),
                    None => row.push(0),
                }
                j += 1;
            }
            res.push(row);
            i += 1;
        }
        proof {
            let a = grid_view(res@);
            let b = grid_of_cells(self@.cells);
            assert(a.len() == b.len());
            assert forall|r: int| 0 <= r < 9 implies #[trigger] a[r] == b[r] by {
                assert(res@[r]@.len() == 9);
                assert forall|c: int| 0 <= c < 9 implies #[trigger] a[r][c] == b[r][c] by {
                    assert(a[r][c] == res@[r]@[c] as int);
                }
                assert(a[r] =~= b[r]);
            }
            assert(a =~= b);
        }
        res
    }

    /// Fills the empty cells from cell `start` on by depth-first search: cells
    /// in increasing order, digits in increasing order, each digit placed only
    /// where its row, column and box do not have it yet.
    ///
    /// On success the board completes the one from before the call, and is the
    /// first completion in the order of the search. On failure nothing has
    /// changed, and the board from before the call has no completion.
    pub fn solve(&mut self, start: usize) -> (res: Option<()>)
        requires
            old(self).wf(),
        ensures
            final(self).wf(),
            res is Some <==> exists|g: Cells| #[trigger] completes(g, old(self)@.cells, start as int),
            res is Some ==> completes(final(self)@.cells, old(self)@.cells, start as int),
            res is Some ==> forall|g: Cells| #[trigger]
                completes(g, old(self)@.cells, start as int) ==> search_le(
                    final(self)@.cells,
                    g,
                ),
            res is None ==> final(self)@ == old(self)@,
            res is None ==> forall|g: Cells| !#[trigger] completes(
                g,
                old(self)@.cells,
                start as int,
            ),
        decreases 81 - start,
    {
        let ghost base = self@;
        if start >= self.nums.len() {
            proof {
                lemma_full_board_completes_itself(base.cells, start as int);
            }
            return Some(());
        }
        let mut p: usize = start;
        while p < 81
            invariant
                start <= p <= 81,
                base == old(self)@,
                self@ == base,
                base.consistent(),
                occupied_between(base.cells, start as int, p as int),
            decreases 81 - p,
        {
            match self.nums[p] {
                Some(_) => {},
                None => {
                    let mut n: u8 = 1;
                    while n <= 9
                        invariant
                            1 <= n <= 10,
                            start <= p < 81,
                            base == old(self)@,
                            self@ == base,
                            base.consistent(),
                            base.cells[p as int] is None,
                            occupied_between(base.cells, start as int, p as int),
                            forall|g: Cells| #[trigger]
                                completes(g, base.cells, start as int) ==> rank(g[p as int]) >= n,
                        decreases 10 - n,
                    {
                        if self.is_valid_entry(n, p) {
                            self.write_at(n, p);
                            let ghost placed = self@;
                            assert(placed.cells == with_digit(base.cells, n, p as int));
                            let next: usize = p + 1;
                            match self.solve(next) {
                                Some(_) => {
                                    proof {
                                        let f = self@.cells;
                                        lemma_completion_ascends(
                                            base.cells,
                                            start as int,
                                            p as int,
                                            n,
                                            f,
                                        );
                                        assert forall|g: Cells| #[trigger]
                                            completes(
                                                g,
                                                base.cells,
                                                start as int,
                                            ) implies search_le(f, g) by {
                                            if g[p as int] == Some(n) {
                                                lemma_completion_descends(
                                                    base.cells,
                                                    start as int,
                                                    p as int,
                                                    n,
                                                    g,
                                                );
                                            }
                                            lemma_first_digit_decides(
                                                base.cells,
                                                start as int,
                                                p as int,
                                                n,
                                                f,
                                                g,
                                            );
                                        }
                                    }
                                    return Some(());
                                },
                                None => {
                                    proof {
                                        assert(self@ == placed);
                                        assert forall|j: int|
                                            0 <= j < 81 && peer(p as int, j) implies #[trigger]
                                            placed.cells[j] != Some(n) by {
                                            assert(placed.cells[j] == base.cells[j]);
                                        }
                                        lemma_place_then_remove(base, n, p as int);
                                    }
                                    self.clear_at(n, p);
                                    proof {
                                        assert forall|g: Cells| #[trigger]
                                            completes(g, base.cells, start as int) implies rank(
                                            g[p as int],
                                        ) >= n + 1 by {
                                            if g[p as int] == Some(n) {
                                                lemma_completion_descends(
                                                    base.cells,
                                                    start as int,
                                                    p as int,
                                                    n,
                                                    g,
                                                );
                                            }
                                        }
                                    }
                                },
                            }
                        } else {
                            proof {
                                assert forall|g: Cells| #[trigger]
                                    completes(g, base.cells, start as int) implies rank(
                                    g[p as int],
                                ) >= n + 1 by {
                                    lemma_used_digit_excluded(
                                        base.cells,
                                        start as int,
                                        p as int,
                                        n,
                                        g,
                                    );
                                }
                            }
                        }
                        n += 1;
                    }
                    proof {
                        assert forall|g: Cells| !#[trigger] completes(
                            g,
                            base.cells,
                            start as int,
                        ) by {
                            if completes(g, base.cells, start as int) {
                                assert(rank(g[p as int]) >= 10);
                            }
                        }
                    }
                    return None;
                },
            };
            p += 1;
        }
        proof {
            lemma_full_board_completes_itself(base.cells, start as int);
        }
        Some(())
    }

    /// Whether every cell is occupied and no digit occurs twice in a row,
    /// column or box. The answer is computed from the cells alone, with fresh
    /// sets, and does not depend on the recorded used-digit sets.
    pub fn is_solved(&self) -> (ok: bool)
        ensures
            ok == solved(self@.cells),
    {
        let mut rows = empty_sets();
        let mut cols = empty_sets();
        let mut boxes = empty_sets();
        let ghost cells = self.nums@;
        proof {
            assert forall|g: int| 0 <= g < 9 implies {
                &&& (#[trigger] rows@[g])@ == digits_among(cells, by_row(), g, 0)
                &&& (#[trigger] cols@[g])@ == digits_among(cells, by_col(), g, 0)
                &&& (#[trigger] boxes@[g])@ == digits_among(cells, by_box(), g, 0)
            } by {
                lemma_empty_cells_no_digits(cells, by_row(), g, 0);
                lemma_empty_cells_no_digits(cells, by_col(), g, 0);
                lemma_empty_cells_no_digits(cells, by_box(), g, 0);
            }
        }
        let mut i: usize = 0;
        while i < 81
            invariant
                i <= 81,
                cells == self.nums@,
                rows.len() == 9,
                cols.len() == 9,
                boxes.len() == 9,
                forall|k: int| 0 <= k < i ==> (#[trigger] cells[k]) is Some,
                forall|k: int, l: int|
                    0 <= k < i && 0 <= l < i && peer(k, l) ==> #[trigger] cells[k]
                        != #[trigger] cells[l],
                forall|g: int|
                    0 <= g < 9 ==> (#[trigger] rows@[g])@ == digits_among(
                        cells,
                        by_row(),
                        g,
                        i as int,
                    ),
                forall|g: int|
                    0 <= g < 9 ==> (#[trigger] cols@[g])@ == digits_among(
                        cells,
                        by_col(),
                        g,
                        i as int,
                    ),
                forall|g: int|
                    0 <= g < 9 ==> (#[trigger] boxes@[g])@ == digits_among(
                        cells,
                        by_box(),
                        g,
                        i as int,
                    ),
            decreases 81 - i,
        {
            let d: u8 = match self.nums[i] {
                None => {
                    assert(cells[i as int] is None);
                    return false;
                },
                Some(d) => d,
            };
            let r: usize = row_index(i);
            let c: usize = col_index(i);
            let b: usize = box_index(i);
            let ghost rows0 = rows@;
            let ghost cols0 = cols@;
            let ghost boxes0 = boxes@;
            if !rows[r].insert(d) {
                proof {
                    let k = lemma_digit_has_holder(cells, by_row(), r as int, i as int, d);
                    assert(peer(k, i as int) && cells[k] == cells[i as int]);
                }
                return false;
            }
            if !cols[c].insert(d) {
                proof {
                    let k = lemma_digit_has_holder(cells, by_col(), c as int, i as int, d);
                    assert(peer(k, i as int) && cells[k] == cells[i as int]);
                }
                return false;
            }
            if !boxes[b].insert(d) {
                proof {
                    let k = lemma_digit_has_holder(cells, by_box(), b as int, i as int, d);
                    assert(peer(k, i as int) && cells[k] == cells[i as int]);
                }
                return false;
            }
            proof {
                let n = i as int;
                assert forall|k: int| 0 <= k < n && peer(k, n) implies #[trigger] cells[k]
                    != cells[n] by {
                    if cells[k] == Some(d) {
                        lemma_holder_gives_digit(cells, by_row(), n, k);
                        lemma_holder_gives_digit(cells, by_col(), n, k);
                        lemma_holder_gives_digit(cells, by_box(), n, k);
                    }
                }
                assert forall|g: int| 0 <= g < 9 implies (#[trigger] rows@[g])@ == digits_among(
                    cells,
                    by_row(),
                    g,
                    n + 1,
                ) by {
                    assert(rows0[g]@ == digits_among(cells, by_row(), g, n));
                    lemma_digits_with_next_cell(cells, by_row(), g, n);
                }
                assert forall|g: int| 0 <= g < 9 implies (#[trigger] cols@[g])@ == digits_among(
                    cells,
                    by_col(),
                    g,
                    n + 1,
                ) by {
                    assert(cols0[g]@ == digits_among(cells, by_col(), g, n));
                    lemma_digits_with_next_cell(cells, by_col(), g, n);
                }
                assert forall|g: int| 0 <= g < 9 implies (#[trigger] boxes@[g])@ == digits_among(
                    cells,
                    by_box(),
                    g,
                    n + 1,
                ) by {
                    assert(boxes0[g]@ == digits_among(cells, by_box(), g, n));
                    lemma_digits_with_next_cell(cells, by_box(), g, n);
                }
            }
            i += 1;
        }
        true
    }

    /// Whether digit `n` is recorded as used in row `r`.
    pub fn row_contains(&self, r: usize, n: u8) -> (used: bool)
        requires
            self.wf(),
            r < 9,
        ensures
            used == self@.rows[r as int].contains(n),
            used == row_digits(self@.cells, r as int).contains(n),
    {
        self.rows[r].contains(&n)
    }

    /// Whether digit `n` is recorded as used in column `c`.
    pub fn col_contains(&self, c: usize, n: u8) -> (used: bool)
        requires
            self.wf(),
            c < 9,
        ensures
            used == self@.cols[c as int].contains(n),
            used == col_digits(self@.cells, c as int).contains(n),
    {
        self.cols[c].contains(&n)
    }

    /// Whether digit `n` is recorded as used in box `b`.
    pub fn box_contains(&self, b: usize, n: u8) -> (used: bool)
        requires
            self.wf(),
            b < 9,
        ensures
            used == self@.boxes[b as int].contains(n),
            used == box_digits(self@.cells, b as int).contains(n),
    {
        self.boxes[b].contains(&n)
    }

    /// Whether digit `n` is used neither in the row, nor in the column, nor in
    /// the box of cell `idx`.
    pub fn is_valid_entry(&self, n: u8, idx: usize) -> (ok: bool)
        requires
            self.wf(),
            idx < 81,
        ensures
            ok == self@.allows(n, idx as int),
            ok == digit_free(self@.cells, n, idx as int),
    {
        proof {
            lemma_allows_iff_digit_free(self@, n, idx as int);
        }
        return !self.rows[row_index(idx)].contains(&n) && !self.cols[col_index(idx)].contains(&n)
            && !self.boxes[box_index(idx)].contains(&n);
    }

    /// Writes digit `n` to the empty cell `idx` and records it for the cell's
    /// row, column and box.
    pub fn write_at(&mut self, n: u8, idx: usize)
        requires
            old(self).wf(),
            idx < 81,
            old(self)@.cells[idx as int] is None,
            1 <= n <= 9,
        ensures
            final(self)@ == old(self)@.place(n, idx as int),
            final(self).wf(),
    {
        proof {
            lemma_place_consistent(self@, n, idx as int);
        }
        self.nums[idx] = Some(n);
        self.rows[row_index(idx)].insert(n);
        self.cols[col_index(idx)].insert(n);
        self.boxes[box_index(idx)].insert(n);
        proof {
            let w = old(self)@.place(n, idx as int);
            assert(self@.cells =~= w.cells);
            assert(self@.rows =~= w.rows);
            assert(self@.cols =~= w.cols);
            assert(self@.boxes =~= w.boxes);
        }
    }

    /// Empties cell `idx`, which holds digit `n`, and strikes `n` from the
    /// records of the cell's row, column and box.
    pub fn clear_at(&mut self, n: u8, idx: usize)
        requires
            old(self).wf(),
            idx < 81,
            old(self)@.cells[idx as int] == Some(n),
            no_peer_holds(old(self)@.cells, n, idx as int),
        ensures
            final(self)@ == old(self)@.remove(n, idx as int),
            final(self).wf(),
    {
        proof {
            lemma_remove_consistent(self@, n, idx as int);
        }
        self.nums[idx] = None;
        self.rows[row_index(idx)].remove(&n);
        self.cols[col_index(idx)].remove(&n);
        self.boxes[box_index(idx)].remove(&n);
        proof {
            let w = old(self)@.remove(n, idx as int);
            assert(self@.cells =~= w.cells);
            assert(self@.rows =~= w.rows);
            assert(self@.cols =~= w.cols);
            assert(self@.boxes =~= w.boxes);
        }
    }
}

impl Into<Vec<Vec<isize>>> for Puzzle {
    /// The board as a grid of nine rows of nine integers, 0 for an empty cell.
    fn into(self) -> (grid: Vec<Vec<isize>>)
        ensures
            grid_view(Vec::<Vec<isize>>::view(&grid)) == grid_of_cells(self@.cells),
    {
        self.to_grid()
    }
}

/// The conversion is not described as one particular vector: what the grid
/// holds is stated by `into` itself.
impl vstd::std_specs::convert::IntoSpecImpl<Vec<Vec<isize>>> for Puzzle {
    open spec fn obeys_into_spec() -> bool {
        false
    }

    open spec fn into_spec(self) -> Vec<Vec<isize>> {
        arbitrary()
    }
}

} // verus!
