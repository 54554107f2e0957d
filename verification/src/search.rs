//! Facts about completions of a board, on which the search rests.

use vstd::prelude::*;
use crate::board::{
    Cells, completes, search_le, rank, digit_free, digits_in_range, with_digit, peer,
    shares_group, conflict_free, solved,
};

verus! {

/// The cells from `from` up to, not including, `to` are all occupied.
pub open spec fn occupied_between(cells: Cells, from: int, to: int) -> bool {
    forall|i: int| from <= i < to && 0 <= i < 81 ==> (#[trigger] cells[i]) is Some
}

/// A board whose cells from `start` on are all occupied completes itself, and
/// nothing else completes it.
pub proof fn lemma_full_board_completes_itself(base: Cells, start: int)
    requires
        base.len() == 81,
        0 <= start,
        digits_in_range(base),
        occupied_between(base, start, 81),
    ensures
        completes(base, base, start),
        forall|g: Cells| #[trigger] completes(g, base, start) ==> g == base,
{
    assert forall|g: Cells| #[trigger] completes(g, base, start) implies g == base by {
        assert forall|i: int| 0 <= i < 81 implies g[i] == base[i] by {
            if i >= start {
                assert(base[i] is Some);
            }
        }
        assert(g =~= base);
    }
}

/// Where some cell in the row, column or box of the empty cell `p` holds digit
/// `d`, no completion has `d` at `p`.
pub proof fn lemma_used_digit_excluded(base: Cells, start: int, p: int, d: u8, g: Cells)
    requires
        0 <= start <= p < 81,
        base[p] is None,
        !digit_free(base, d, p),
        completes(g, base, start),
    ensures
        g[p] != Some(d),
{
    let j = choose|j: int| 0 <= j < 81 && shares_group(p, j) && #[trigger] base[j] == Some(d);
    assert(j != p);
    assert(peer(p, j));
    assert(g[j] == base[j]);
    assert(g[p] != g[j]);
}

/// A completion that has digit `d` at the first empty cell `p` also completes,
/// from the next cell on, the board with `d` placed at `p`.
pub proof fn lemma_completion_descends(base: Cells, start: int, p: int, d: u8, g: Cells)
    requires
        base.len() == 81,
        0 <= start <= p < 81,
        occupied_between(base, start, p),
        base[p] is None,
        completes(g, base, start),
        g[p] == Some(d),
    ensures
        completes(g, with_digit(base, d, p), p + 1),
{
    let next = with_digit(base, d, p);
    assert forall|i: int| 0 <= i < 81 && (i < p + 1 || next[i] is Some) implies #[trigger] g[i]
        == next[i] by {
        if i != p {
            assert(next[i] == base[i]);
            if i >= start && i < p {
                assert(base[i] is Some);
            }
        }
    }
    assert forall|i: int, j: int|
        p + 1 <= i < 81 && next[i] is None && 0 <= j < 81 && peer(i, j) implies #[trigger] g[i]
        != #[trigger] g[j] by {
        assert(next[i] == base[i]);
    }
}

/// A completion, from the next cell on, of the board with a free digit `d`
/// placed at the first empty cell `p` completes the board itself.
pub proof fn lemma_completion_ascends(base: Cells, start: int, p: int, d: u8, g: Cells)
    requires
        base.len() == 81,
        digits_in_range(base),
        0 <= start <= p < 81,
        occupied_between(base, start, p),
        base[p] is None,
        1 <= d <= 9,
        digit_free(base, d, p),
        completes(g, with_digit(base, d, p), p + 1),
    ensures
        completes(g, base, start),
        g[p] == Some(d),
{
    let next = with_digit(base, d, p);
    assert(next[p] == Some(d));
    assert(g[p] == next[p]);
    assert forall|i: int| 0 <= i < 81 && (i < start || base[i] is Some) implies #[trigger] g[i]
        == base[i] by {
        assert(i != p);
        assert(next[i] == base[i]);
    }
    assert forall|i: int| start <= i < 81 implies match #[trigger] g[i] {
        Some(e) => 1 <= e <= 9,
        None => false,
    } by {
        if i < p {
            assert(base[i] is Some);
            assert(next[i] == base[i]);
            assert(g[i] == next[i]);
        } else if i == p {
        } else {
        }
    }
    assert forall|i: int, j: int|
        start <= i < 81 && base[i] is None && 0 <= j < 81 && peer(i, j) implies #[trigger] g[i]
        != #[trigger] g[j] by {
        if i < p {
            assert(base[i] is Some);
        } else if i == p {
            if j > p {
                if next[j] is None {
                    assert(peer(j, i));
                    assert(g[j] != g[i]);
                } else {
                    assert(next[j] == base[j]);
                    assert(g[j] == next[j]);
                    assert(base[j] != Some(d));
                }
            } else {
                assert(next[j] == base[j]);
                if j >= start {
                    assert(base[j] is Some);
                }
                assert(g[j] == next[j]);
                assert(base[j] != Some(d));
            }
        } else {
            assert(next[i] == base[i]);
        }
    }
}

/// Two completions of a board agree before its first empty cell.
pub proof fn lemma_completions_agree_before(base: Cells, start: int, p: int, f: Cells, g: Cells)
    requires
        0 <= start <= p <= 81,
        occupied_between(base, start, p),
        completes(f, base, start),
        completes(g, base, start),
    ensures
        forall|i: int| 0 <= i < p ==> #[trigger] f[i] == g[i],
{
    assert forall|i: int| 0 <= i < p implies #[trigger] f[i] == g[i] by {
        if i >= start {
            assert(base[i] is Some);
        }
        assert(f[i] == base[i]);
        assert(g[i] == base[i]);
    }
}

/// A completion `f` with digit `d` at the first empty cell `p` comes no later
/// in the order of the search than a completion `g` whose digit at `p` is at
/// least `d`, if it comes no later than `g` whenever `g` has `d` there too.
pub proof fn lemma_first_digit_decides(
    base: Cells,
    start: int,
    p: int,
    d: u8,
    f: Cells,
    g: Cells,
)
    requires
        0 <= start <= p < 81,
        occupied_between(base, start, p),
        completes(f, base, start),
        completes(g, base, start),
        f[p] == Some(d),
        rank(g[p]) >= d,
        g[p] == Some(d) ==> search_le(f, g),
    ensures
        search_le(f, g),
{
    lemma_completions_agree_before(base, start, p, f, g);
    if g[p] != Some(d) {
        assert(rank(f[p]) < rank(g[p]));
    }
}

/// Two boards of which each comes no later than the other in the order of
/// the search are the same board.
pub proof fn lemma_search_order_antisymmetric(a: Cells, b: Cells)
    requires
        search_le(a, b),
        search_le(b, a),
    ensures
        a == b,
{
    if a != b {
        let k = choose|k: int|
            0 <= k < 81 && rank(#[trigger] a[k]) < rank(b[k]) && forall|i: int|
                0 <= i < k ==> #[trigger] a[i] == b[i];
        let l = choose|l: int|
            0 <= l < 81 && rank(#[trigger] b[l]) < rank(a[l]) && forall|i: int|
                0 <= i < l ==> #[trigger] b[i] == a[i];
        if k < l {
            assert(b[k] == a[k]);
        } else if l < k {
            assert(a[l] == b[l]);
        }
    }
}

/// A board has at most one first completion: two completions that each come
/// no later than every completion are the same.
pub proof fn lemma_first_completion_unique(base: Cells, start: int, f: Cells, g: Cells)
    requires
        completes(f, base, start),
        completes(g, base, start),
        forall|h: Cells| #[trigger] completes(h, base, start) ==> search_le(f, h),
        forall|h: Cells| #[trigger] completes(h, base, start) ==> search_le(g, h),
    ensures
        f == g,
{
    lemma_search_order_antisymmetric(f, g);
}

/// A completion from the first cell on of a board without conflicts among its
/// occupied cells is a solved board.
pub proof fn lemma_completion_is_solved(base: Cells, g: Cells)
    requires
        base.len() == 81,
        conflict_free(base),
        completes(g, base, 0),
    ensures
        solved(g),
{
    assert forall|i: int, j: int| 0 <= i < 81 && 0 <= j < 81 && peer(i, j) implies #[trigger] g[i]
        != #[trigger] g[j] by {
        if base[i] is None {
        } else if base[j] is None {
            assert(peer(j, i));
            assert(g[j] != g[i]);
        } else {
            assert(g[i] == base[i]);
            assert(g[j] == base[j]);
            assert(base[i] != base[j]);
        }
    }
}

} // verus!
