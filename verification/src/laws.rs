//! What holds of the validator and of the solver on every board.

use crate::completion::{
    comes_before, differ_first_at, holds_digits_only, is_completion, is_completion_from,
    is_first_completion, is_outcome, is_permutation_of_digits, is_solved,
    lemma_completion_from_start, units_solved,
};
use crate::units::{
    block, column, has_repeat, is_valid, lemma_unit_cells_on_board, row, units_hold,
};
use vstd::prelude::*;
use vstd::set_lib::{lemma_int_range, lemma_subset_equality, set_int_range};

verus! {

/// A board breaks the rule exactly when one of its rows, columns or blocks
/// holds the same non-zero value twice.
pub proof fn lemma_invalid_iff_some_unit_repeats(b: Seq<u8>)
    ensures
        !is_valid(b) <==> exists|i: int|
            #![trigger row(b, i)]
            #![trigger column(b, i)]
            #![trigger block(b, i)]
            0 <= i < 9 && (has_repeat(row(b, i)) || has_repeat(column(b, i))
                || has_repeat(block(b, i))),
{
    if !is_valid(b) {
        let i = choose|i: int| 0 <= i < 9 && !#[trigger] units_hold(b, i);
        assert(has_repeat(row(b, i)) || has_repeat(column(b, i)) || has_repeat(
            block(b, i),
        ));
    } else {
        assert forall|i: int| 0 <= i < 9 implies !has_repeat(row(b, i)) && !has_repeat(
            column(b, i),
        ) && !has_repeat(block(b, i)) by {
            assert(units_hold(b, i));
        }
    }
}

/// Nine digits from 1 to 9, no two of them equal, are all of the digits.
pub proof fn lemma_distinct_digits_cover(unit: Seq<u8>)
    requires
        unit.len() == 9,
        forall|j: int| 0 <= j < 9 ==> 1 <= #[trigger] unit[j] <= 9,
        !has_repeat(unit),
    ensures
        is_permutation_of_digits(unit),
{
    assert forall|j: int, k: int| 0 <= j < k < 9 implies #[trigger] unit[j]
        != #[trigger] unit[k] by {
        if unit[j] == unit[k] {
            assert(0 <= j < k < unit.len() && unit[j] != 0 && unit[j] == unit[k]);
        }
    }
    let values = Seq::new(9, |j: int| unit[j] as int);
    let digits = set_int_range(1, 10);
    assert(values.no_duplicates());
    values.unique_seq_to_set();
    lemma_int_range(1, 10);
    assert(values.to_set().subset_of(digits)) by {
        assert forall|v: int| values.to_set().contains(v) implies digits.contains(v) by {
            let j = choose|j: int| 0 <= j < values.len() && values[j] == v;
            assert(1 <= unit[j] <= 9);
        }
    }
    vstd::seq_lib::seq_to_set_is_finite(values);
    lemma_subset_equality(values.to_set(), digits);
    assert forall|d: u8| 1 <= d <= 9 implies #[trigger] unit.contains(d) by {
        assert(digits.contains(d as int));
        assert(values.to_set().contains(d as int));
        let j = choose|j: int| 0 <= j < values.len() && values[j] == d as int;
        assert(unit[j] == d);
    }
}

/// A completion of a puzzle that holds nothing but blanks and digits is a
/// solved board, and it agrees with the puzzle on every given cell.
pub proof fn lemma_completion_is_solved(puzzle: Seq<u8>, c: Seq<u8>)
    requires
        holds_digits_only(puzzle),
        is_completion(puzzle, c),
    ensures
        is_solved(c),
        forall|m: int| 0 <= m < 81 && puzzle[m] != 0 ==> c[m] == puzzle[m],
{
    assert forall|m: int| 0 <= m < 81 implies 1 <= #[trigger] c[m] <= 9 by {
        assert(puzzle[m] <= 9);
    }
    assert forall|i: int| 0 <= i < 9 implies #[trigger] units_solved(c, i) by {
        assert(units_hold(c, i));
        assert forall|j: int| 0 <= j < 9 implies 1 <= #[trigger] row(c, i)[j] <= 9 && 1
            <= #[trigger] column(c, i)[j] <= 9 && 1 <= #[trigger] block(c, i)[j] <= 9 by {
            lemma_unit_cells_on_board(i, j);
        }
        lemma_distinct_digits_cover(row(c, i));
        lemma_distinct_digits_cover(column(c, i));
        lemma_distinct_digits_cover(block(c, i));
    }
}

/// What fills a puzzle from its first cell on completes it, so it is a
/// solved board where the puzzle holds nothing but blanks and digits.
pub proof fn lemma_filled_from_start_is_solved(puzzle: Seq<u8>, n: int, c: Seq<u8>)
    requires
        is_completion_from(puzzle, n, c),
    ensures
        n == 0 && holds_digits_only(puzzle) ==> is_solved(c),
{
    if n == 0 && holds_digits_only(puzzle) {
        lemma_completion_from_start(puzzle, c);
        lemma_completion_is_solved(puzzle, c);
    }
}

/// Of two boards at most one comes before the other.
pub proof fn lemma_comes_before_is_one_way(a: Seq<u8>, b: Seq<u8>)
    requires
        comes_before(a, b),
    ensures
        !comes_before(b, a),
        a != b,
{
    let k = choose|k: int| #[trigger] differ_first_at(a, b, k) && a[k] < b[k];
    if comes_before(b, a) {
        let l = choose|l: int| #[trigger] differ_first_at(b, a, l) && b[l] < a[l];
        if k < l {
            assert(b[k] == a[k]);
        } else if l < k {
            assert(a[l] == b[l]);
        }
    }
}

/// A puzzle has at most one first completion: whatever is returned for it
/// is the same board every time.
pub proof fn lemma_first_completion_is_unique(puzzle: Seq<u8>, c1: Seq<u8>, c2: Seq<u8>)
    requires
        is_first_completion(puzzle, c1),
        is_first_completion(puzzle, c2),
    ensures
        c1 == c2,
{
    if c1 != c2 {
        assert(is_completion(puzzle, c1));
        assert(is_completion(puzzle, c2));
        assert(comes_before(c1, c2));
        assert(comes_before(c2, c1));
        lemma_comes_before_is_one_way(c1, c2);
    }
}

/// Solving is a function of the puzzle: two outcomes for the same puzzle
/// are the same, whether a board or nothing.
pub proof fn lemma_outcome_is_determined(
    puzzle: Seq<u8>,
    first: Option<Seq<u8>>,
    second: Option<Seq<u8>>,
)
    requires
        is_outcome(puzzle, first),
        is_outcome(puzzle, second),
    ensures
        first == second,
{
    match (first, second) {
        (Some(c1), Some(c2)) => {
            lemma_first_completion_is_unique(puzzle, c1, c2);
        },
        (Some(c1), None) => {
            assert(is_completion(puzzle, c1));
        },
        (None, Some(c2)) => {
            assert(is_completion(puzzle, c2));
        },
        (None, None) => {},
    }
}

/// A puzzle with a completion is never given up, and a puzzle without one
/// is never answered.
pub proof fn lemma_outcome_tells_solvable(puzzle: Seq<u8>, result: Option<Seq<u8>>)
    requires
        is_outcome(puzzle, result),
    ensures
        result.is_some() <==> exists|c: Seq<u8>| is_completion(puzzle, c),
{
    if let Some(c) = result {
        assert(is_completion(puzzle, c));
    }
}

} // verus!
