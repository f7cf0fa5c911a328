//! What it means to complete a board, and which completion comes first.

use crate::grid::cell_index;
use crate::units::{
    block, block_of, column, fits, has_repeat, is_valid, lemma_repeat_carries_over,
    lemma_two_equal_repeat, lemma_unit_cells_on_board, lemma_units_of_cell, place_in_block, row,
    units_hold,
};
use vstd::prelude::*;

verus! {

/// `c` fills the blanks of `puzzle`: every given value stays where it is,
/// every blank receives a digit from 1 to 9, and the outcome repeats no
/// digit in any row, column or block.
pub open spec fn is_completion(puzzle: Seq<u8>, c: Seq<u8>) -> bool {
    &&& puzzle.len() == 81
    &&& c.len() == 81
    &&& forall|m: int|
        0 <= m < 81 ==> if puzzle[m] != 0 {
            #[trigger] c[m] == puzzle[m]
        } else {
            1 <= c[m] <= 9
        }
    &&& is_valid(c)
}

/// `c` fills the blanks of `puzzle` from cell `n` on: the first `n` cells
/// and every given value stay as they are, every blank from cell `n` on
/// receives a digit from 1 to 9, and the outcome repeats no digit in any
/// row, column or block.
pub open spec fn is_completion_from(puzzle: Seq<u8>, n: int, c: Seq<u8>) -> bool {
    &&& puzzle.len() == 81
    &&& c.len() == 81
    &&& forall|m: int|
        0 <= m < 81 ==> if m < n || puzzle[m] != 0 {
            #[trigger] c[m] == puzzle[m]
        } else {
            1 <= c[m] <= 9
        }
    &&& is_valid(c)
}

/// Every cell holds a blank or a digit from 1 to 9.
pub open spec fn holds_digits_only(b: Seq<u8>) -> bool {
    forall|m: int| 0 <= m < b.len() ==> #[trigger] b[m] <= 9
}

/// The unit holds each of the digits 1 to 9, and none of them twice.
pub open spec fn is_permutation_of_digits(unit: Seq<u8>) -> bool {
    &&& unit.len() == 9
    &&& forall|j: int| 0 <= j < 9 ==> 1 <= #[trigger] unit[j] <= 9
    &&& forall|j: int, k: int| 0 <= j < k < 9 ==> #[trigger] unit[j] != #[trigger] unit[k]
    &&& forall|d: u8| 1 <= d <= 9 ==> #[trigger] unit.contains(d)
}

/// Row `i`, column `i` and block `i` are each a permutation of the digits.
pub open spec fn units_solved(b: Seq<u8>, i: int) -> bool {
    &&& is_permutation_of_digits(row(b, i))
    &&& is_permutation_of_digits(column(b, i))
    &&& is_permutation_of_digits(block(b, i))
}

/// A solved board: 81 cells, each of them a digit from 1 to 9, and every
/// row, column and block a permutation of these digits.
pub open spec fn is_solved(b: Seq<u8>) -> bool {
    &&& b.len() == 81
    &&& forall|m: int| 0 <= m < 81 ==> 1 <= #[trigger] b[m] <= 9
    &&& forall|i: int| 0 <= i < 9 ==> #[trigger] units_solved(b, i)
}

/// `k` is the first position at which `a` and `b` differ.
pub open spec fn differ_first_at(a: Seq<u8>, b: Seq<u8>, k: int) -> bool {
    &&& 0 <= k < a.len()
    &&& k < b.len()
    &&& forall|m: int| 0 <= m < k ==> a[m] == b[m]
    &&& a[k] != b[k]
}

/// `a` comes before `b` when the cells are read in row-major order: at the
/// first cell where the two differ, `a` holds the smaller value.
pub open spec fn comes_before(a: Seq<u8>, b: Seq<u8>) -> bool {
    exists|k: int| #[trigger] differ_first_at(a, b, k) && a[k] < b[k]
}

/// `c` is the completion that leaves the first `n` cells as they are and
/// comes before every other such completion.
pub open spec fn is_first_completion_from(puzzle: Seq<u8>, n: int, c: Seq<u8>) -> bool {
    &&& is_completion_from(puzzle, n, c)
    &&& forall|d: Seq<u8>| #[trigger]
        is_completion_from(puzzle, n, d) ==> d == c || comes_before(c, d)
}

/// `c` is the completion of `puzzle` that comes before every other one.
pub open spec fn is_first_completion(puzzle: Seq<u8>, c: Seq<u8>) -> bool {
    &&& is_completion(puzzle, c)
    &&& forall|d: Seq<u8>| #[trigger] is_completion(puzzle, d) ==> d == c || comes_before(c, d)
}

/// What [`solve_sudoku`](crate::search::solve_sudoku) gives for `puzzle`:
/// its first completion, or nothing when it has none.
pub open spec fn is_outcome(puzzle: Seq<u8>, result: Option<Seq<u8>>) -> bool {
    match result {
        Some(c) => is_first_completion(puzzle, c),
        None => forall|c: Seq<u8>| !is_completion(puzzle, c),
    }
}

/// With no cell held back, filling from the start is completing.
pub proof fn lemma_completion_from_start(puzzle: Seq<u8>, c: Seq<u8>)
    ensures
        is_completion_from(puzzle, 0, c) <==> is_completion(puzzle, c),
{
}

/// With no cell held back, the first completion from the start is the first
/// completion.
pub proof fn lemma_first_from_start(puzzle: Seq<u8>, c: Seq<u8>)
    ensures
        is_first_completion_from(puzzle, 0, c) <==> is_first_completion(puzzle, c),
{
    assert forall|d: Seq<u8>| is_completion_from(puzzle, 0, d) <==> is_completion(puzzle, d) by {
        lemma_completion_from_start(puzzle, d);
    }
    if is_first_completion_from(puzzle, 0, c) {
        assert forall|d: Seq<u8>| #[trigger] is_completion(puzzle, d) implies d == c
            || comes_before(c, d) by {
            assert(is_completion_from(puzzle, 0, d));
        }
    }
    if is_first_completion(puzzle, c) {
        assert forall|d: Seq<u8>| #[trigger] is_completion_from(puzzle, 0, d) implies d == c
            || comes_before(c, d) by {
            assert(is_completion(puzzle, d));
        }
    }
}

/// A board whose 81 cells are all held back has itself as its only
/// completion.
pub proof fn lemma_full_board(b: Seq<u8>)
    requires
        b.len() == 81,
        is_valid(b),
    ensures
        is_first_completion_from(b, 81, b),
{
    assert forall|d: Seq<u8>| #[trigger] is_completion_from(b, 81, d) implies d == b
        || comes_before(b, d) by {
        assert(d =~= b);
    }
}

/// A cell that holds a value is never changed, so holding it back makes no
/// difference.
pub proof fn lemma_skip_given(b: Seq<u8>, n: int, c: Seq<u8>)
    requires
        0 <= n < 81,
        b.len() == 81,
        b[n] != 0,
    ensures
        is_completion_from(b, n, c) <==> is_completion_from(b, n + 1, c),
{
    if is_completion_from(b, n, c) {
        assert(c[n] == b[n]);
    }
}

/// Completions that put `d` into the blank cell `n` are the completions of
/// the board with `d` placed there.
pub proof fn lemma_place(b: Seq<u8>, n: int, d: u8, c: Seq<u8>)
    requires
        0 <= n < 81,
        b.len() == 81,
        b[n] == 0,
        1 <= d <= 9,
    ensures
        is_completion_from(b.update(n, d), n + 1, c) <==> is_completion_from(b, n, c) && c[n]
            == d,
{
    let placed = b.update(n, d);
    if is_completion_from(placed, n + 1, c) {
        assert(c[n] == placed[n]);
        assert forall|m: int| 0 <= m < 81 && (m < n || b[m] != 0) implies #[trigger] c[m]
            == b[m] by {
            assert(placed[m] == b[m]);
        }
    }
    if is_completion_from(b, n, c) && c[n] == d {
        assert forall|m: int| 0 <= m < 81 && (m < n + 1 || placed[m] != 0) implies #[trigger] c[m]
            == placed[m] by {
            if m != n {
                assert(placed[m] == b[m]);
            }
        }
    }
}

/// If `x` is the first completion once `d` is placed in the blank cell `n`,
/// and no completion puts anything smaller than `d` there, then `x` is the
/// first completion of the board as it was.
pub proof fn lemma_first_after_placing(b: Seq<u8>, n: int, d: u8, x: Seq<u8>)
    requires
        0 <= n < 81,
        b.len() == 81,
        b[n] == 0,
        1 <= d <= 9,
        is_first_completion_from(b.update(n, d), n + 1, x),
        forall|c: Seq<u8>| #[trigger] is_completion_from(b, n, c) ==> c[n] >= d,
    ensures
        is_first_completion_from(b, n, x),
{
    let placed = b.update(n, d);
    lemma_place(b, n, d, x);
    assert forall|c: Seq<u8>| #[trigger] is_completion_from(b, n, c) implies c == x
        || comes_before(x, c) by {
        lemma_place(b, n, d, c);
        if c[n] == d {
            assert(is_completion_from(placed, n + 1, c));
        } else {
            assert forall|m: int| 0 <= m < n implies x[m] == c[m] by {
                assert(x[m] == b[m]);
                assert(c[m] == b[m]);
            }
            assert(differ_first_at(x, c, n));
        }
    }
}

/// If nothing completes the board once `d` is placed in the blank cell `n`,
/// then no completion of the board as it was puts `d` there.
pub proof fn lemma_none_after_placing(b: Seq<u8>, n: int, d: u8)
    requires
        0 <= n < 81,
        b.len() == 81,
        b[n] == 0,
        1 <= d <= 9,
        forall|c: Seq<u8>| !#[trigger] is_completion_from(b.update(n, d), n + 1, c),
    ensures
        forall|c: Seq<u8>| #[trigger] is_completion_from(b, n, c) ==> c[n] != d,
{
    assert forall|c: Seq<u8>| #[trigger] is_completion_from(b, n, c) implies c[n] != d by {
        lemma_place(b, n, d, c);
    }
}

/// A completion keeps every repeat of the board it completes, so a board
/// that breaks the rule has no completion.
pub proof fn lemma_invalid_has_no_completion(b: Seq<u8>, c: Seq<u8>)
    requires
        !is_valid(b),
    ensures
        !is_completion(b, c),
{
    if is_completion(b, c) {
        let i = choose|i: int| 0 <= i < 9 && !#[trigger] units_hold(b, i);
        assert forall|j: int| 0 <= j < 9 implies (#[trigger] row(b, i)[j] != 0 ==> row(c, i)[j]
            == row(b, i)[j]) && (#[trigger] column(b, i)[j] != 0 ==> column(c, i)[j] == column(
            b,
            i,
        )[j]) && (#[trigger] block(b, i)[j] != 0 ==> block(c, i)[j] == block(b, i)[j]) by {
            lemma_unit_cells_on_board(i, j);
        }
        if has_repeat(row(b, i)) {
            lemma_repeat_carries_over(row(b, i), row(c, i));
        } else if has_repeat(column(b, i)) {
            lemma_repeat_carries_over(column(b, i), column(c, i));
        } else {
            lemma_repeat_carries_over(block(b, i), block(c, i));
        }
        assert(!units_hold(c, i));
    }
}

/// A value that meets itself in the row, the column or the block of a blank
/// cell is not what any completion puts into that cell.
pub proof fn lemma_clash(b: Seq<u8>, r: int, c: int, d: u8, n: int, g: Seq<u8>)
    requires
        0 <= r < 9,
        0 <= c < 9,
        b.len() == 81,
        b[cell_index(r, c)] == 0,
        d != 0,
        !fits(b, d, r, c),
        is_completion_from(b, n, g),
    ensures
        g[cell_index(r, c)] != d,
{
    lemma_units_of_cell(r, c);
    if g[cell_index(r, c)] == d {
        if row(b, r).contains(d) {
            let k = choose|k: int| 0 <= k < 9 && row(b, r)[k] == d;
            lemma_unit_cells_on_board(r, k);
            assert(row(g, r)[k] == d);
            assert(row(g, r)[c] == d);
            lemma_two_equal_repeat(row(g, r), k, c);
            assert(!units_hold(g, r));
        } else if column(b, c).contains(d) {
            let k = choose|k: int| 0 <= k < 9 && column(b, c)[k] == d;
            lemma_unit_cells_on_board(c, k);
            assert(column(g, c)[k] == d);
            assert(column(g, c)[r] == d);
            lemma_two_equal_repeat(column(g, c), k, r);
            assert(!units_hold(g, c));
        } else {
            let i = block_of(r, c);
            let p = place_in_block(r, c);
            let k = choose|k: int| 0 <= k < 9 && block(b, i)[k] == d;
            lemma_unit_cells_on_board(i, k);
            assert(block(g, i)[k] == d);
            assert(block(g, i)[p] == d);
            lemma_two_equal_repeat(block(g, i), k, p);
            assert(!units_hold(g, i));
        }
    }
}

} // verus!
