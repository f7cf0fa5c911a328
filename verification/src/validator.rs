//! The validator: tells whether a board obeys the rule.

use crate::grid::Grid;
use crate::units::{
    block, block_cell, column, column_cell, has_repeat, is_valid, row_cell, units_hold,
};
use std::collections::HashSet;
use vstd::prelude::*;

verus! {

/// Tells whether a unit is free of repeats: no non-zero value occurs in it
/// twice. Any number of blanks is fine.
pub fn is_valid_unit(items: Vec<u8>) -> (ok: bool)
    ensures
        ok == !has_repeat(items@),
{
    let mut values: HashSet<u8> = HashSet::new();
    for i in 0..items.len()
        invariant
            forall|v: u8|
                values@.contains(v) <==> v != 0 && exists|k: int|
                    0 <= k < i && #[trigger] items@[k] == v,
            forall|j: int, k: int|
                #![trigger items@[j], items@[k]]
                0 <= j < k < i && items@[j] != 0 ==> items@[j] != items@[k],
    {
        let item = items[i];
        if item != 0 && !values.insert(item) {
            proof {
                let k = choose|k: int| 0 <= k < i && #[trigger] items@[k] == item;
                assert(items@[k] != 0 && items@[k] == items@[i as int]);
            }
            return false;
        }
    }
    true
}

/// Tells whether the board obeys the rule: no row, column or block holds a
/// non-zero value twice.
pub fn is_valid_sudoku(board: &Grid) -> (ok: bool)
    ensures
        ok == is_valid(board@),
{
    proof {
        board.lemma_len();
    }
    for i in 0..9usize
        invariant
            board@.len() == 81,
            forall|u: int| 0 <= u < i ==> #[trigger] units_hold(board@, u),
    {
        let mut row = vec![0u8; 9];
        let mut col = vec![0u8; 9];
        let mut boxx = vec![0u8; 9];
        for j in 0..9usize
            invariant
                i < 9,
                board@.len() == 81,
                row@.len() == 9,
                col@.len() == 9,
                boxx@.len() == 9,
                forall|k: int|
                    0 <= k < j ==> #[trigger] row@[k] == board@[row_cell(i as int, k)],
                forall|k: int|
                    0 <= k < j ==> #[trigger] col@[k] == board@[column_cell(i as int, k)],
                forall|k: int|
                    0 <= k < j ==> #[trigger] boxx@[k] == board@[block_cell(i as int, k)],
        {
            row[j] = board.get(i, j);
            col[j] = board.get(j, i);
            boxx[j] = board.get(i / 3 * 3 + j / 3, i % 3 * 3 + j % 3);
        }
        assert(row@ =~= crate::units::row(board@, i as int));
        assert(col@ =~= column(board@, i as int));
        assert(boxx@ =~= block(board@, i as int));
        if !is_valid_unit(row) || !is_valid_unit(col) || !is_valid_unit(boxx) {
            assert(!units_hold(board@, i as int));
            return false;
        }
    }
    true
}

} // verus!
