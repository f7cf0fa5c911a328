//! Backtracking search for the first completion of a board.

use crate::completion::{
    holds_digits_only, is_completion, is_completion_from, is_first_completion,
    is_first_completion_from, is_solved, lemma_clash, lemma_first_after_placing,
    lemma_first_from_start, lemma_full_board, lemma_invalid_has_no_completion,
    lemma_none_after_placing, lemma_skip_given,
};
use crate::grid::{cell_index, Grid};
use crate::laws::{lemma_completion_is_solved, lemma_filled_from_start_is_solved};
use crate::units::{block, block_of, column, fits, is_valid, lemma_place_keeps_valid, row};
use crate::validator::is_valid_sudoku;
use vstd::prelude::*;

verus! {

/// Tells whether `candidate` can be placed at row `row_i`, column `col_i`
/// without meeting itself in that row, that column or that block.
pub fn is_valid_guess(board: &Grid, candidate: u8, row_i: usize, col_i: usize) -> (ok: bool)
    requires
        row_i < 9,
        col_i < 9,
    ensures
        ok == fits(board@, candidate, row_i as int, col_i as int),
{
    proof {
        board.lemma_len();
    }
    let ghost r = row_i as int;
    let ghost c = col_i as int;
    for i in 0..9usize
        invariant
            r == row_i < 9,
            c == col_i < 9,
            forall|k: int| 0 <= k < i ==> #[trigger] row(board@, r)[k] != candidate,
            forall|k: int| 0 <= k < i ==> #[trigger] column(board@, c)[k] != candidate,
            forall|k: int| 0 <= k < i ==> #[trigger] block(board@, block_of(r, c))[k] != candidate,
    {
        if board.get(row_i, i) == candidate {
            assert(row(board@, r)[i as int] == candidate);
            return false;
        }
        if board.get(i, col_i) == candidate {
            assert(column(board@, c)[i as int] == candidate);
            return false;
        }
        if board.get(row_i / 3 * 3 + i / 3, col_i / 3 * 3 + i % 3) == candidate {
            assert(block(board@, block_of(r, c))[i as int] == candidate);
            return false;
        }
    }
    true
}

/// Fills the blanks of a valid board from cell `n` on, in row-major order,
/// trying the digits 1 to 9 in ascending order and stepping back from dead
/// ends.
///
/// The result is the first completion that leaves the first `n` cells as
/// they are. On success the board holds that completion as well; on failure
/// the board is as it was.
pub fn solver(board: &mut Grid, n: usize) -> (result: Option<Grid>)
    requires
        n <= 81,
        is_valid(old(board)@),
    ensures
        match result {
            Some(solved) => {
                &&& is_first_completion_from(old(board)@, n as int, solved@)
                &&& final(board)@ == solved@
            },
            None => {
                &&& forall|c: Seq<u8>| !is_completion_from(old(board)@, n as int, c)
                &&& final(board)@ == old(board)@
            },
        },
        result.is_some() <==> exists|c: Seq<u8>| is_completion_from(old(board)@, n as int, c),
        is_valid(final(board)@),
        n == 0 && holds_digits_only(old(board)@) ==> (result matches Some(solved) ==> is_solved(
            solved@,
        )),
    decreases 81 - n,
{
    let ghost start = board@;
    proof {
        board.lemma_len();
    }
    if n == 81 {
        proof {
            lemma_full_board(start);
        }
        return Some(board.clone());
    }
    let (row_i, col_i) = (n / 9, n % 9);
    assert(cell_index(row_i as int, col_i as int) == n);

    if board.get(row_i, col_i) != 0 {
        let result = solver(board, n + 1);
        proof {
            assert forall|c: Seq<u8>|
                is_completion_from(start, n as int, c) <==> is_completion_from(
                    start,
                    n + 1,
                    c,
                ) by {
                lemma_skip_given(start, n as int, c);
            }
            if let Some(x) = &result {
                assert(is_completion_from(start, n as int, x@));
                lemma_filled_from_start_is_solved(start, n as int, x@);
            }
        }
        return result;
    }
    for candidate in 1u8..10
        invariant
            n < 81,
            row_i == n / 9,
            col_i == n % 9,
            board@ == start,
            start == old(board)@,
            start.len() == 81,
            start[n as int] == 0,
            is_valid(start),
            forall|c: Seq<u8>| #[trigger]
                is_completion_from(start, n as int, c) ==> c[n as int] >= candidate,
    {
        if is_valid_guess(board, candidate, row_i, col_i) {
            board.set(row_i, col_i, candidate);
            proof {
                lemma_place_keeps_valid(start, row_i as int, col_i as int, candidate);
            }
            let is_done = solver(board, n + 1);
            match is_done {
                Some(x) => {
                    proof {
                        lemma_first_after_placing(start, n as int, candidate, x@);
                        assert(is_completion_from(start, n as int, x@));
                        lemma_filled_from_start_is_solved(start, n as int, x@);
                    }
                    return Some(x);
                },
                None => {
                    proof {
                        lemma_none_after_placing(start, n as int, candidate);
                    }
                    board.set(row_i, col_i, 0);
                    assert(board@ =~= start);
                },
            }
        } else {
            assert forall|c: Seq<u8>| #[trigger]
                is_completion_from(start, n as int, c) implies c[n as int] != candidate by {
                lemma_clash(start, row_i as int, col_i as int, candidate, n as int, c);
            }
        }
    }
    assert forall|c: Seq<u8>| !is_completion_from(start, n as int, c) by {
        if is_completion_from(start, n as int, c) {
            assert(1 <= c[n as int] <= 9);
        }
    }
    None
}

/// Solves a puzzle given as 81 cells in row-major order, 0 for a blank.
///
/// The result is the first completion of the puzzle: the one that holds
/// the smaller digit at the first cell where it differs from any other.
/// There is no result exactly when the puzzle has no completion, be it
/// that the given values already break the rule or that the search runs
/// out of digits.
pub fn solve_sudoku(flat_board: Vec<u8>) -> (result: Option<Vec<u8>>)
    requires
        flat_board@.len() == 81,
    ensures
        match result {
            Some(solved) => is_first_completion(flat_board@, solved@),
            None => forall|c: Seq<u8>| !is_completion(flat_board@, c),
        },
        result.is_some() <==> exists|c: Seq<u8>| is_completion(flat_board@, c),
        holds_digits_only(flat_board@) ==> (result matches Some(solved) ==> is_solved(solved@)),
{
    let mut board = Grid::from_flat(flat_board.as_slice());

    if !is_valid_sudoku(&board) {
        proof {
            assert forall|c: Seq<u8>| !is_completion(flat_board@, c) by {
                lemma_invalid_has_no_completion(flat_board@, c);
            }
        }
        return None;
    }
    let result = solver(&mut board, 0);
    match result {
        Some(x) => {
            proof {
                lemma_first_from_start(flat_board@, x@);
                if holds_digits_only(flat_board@) {
                    lemma_completion_is_solved(flat_board@, x@);
                }
            }
            Some(x.to_flat())
        },
        None => {
            proof {
                assert forall|c: Seq<u8>| !is_completion(flat_board@, c) by {
                    assert(!is_completion_from(flat_board@, 0, c));
                }
            }
            None
        },
    }
}

} // verus!
