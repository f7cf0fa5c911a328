//! Rows, columns and blocks: where their cells lie, and the rule that none
//! of them holds a digit twice.

use crate::grid::cell_index;
use vstd::prelude::*;

verus! {

/// Position of the `j`-th cell of row `i`.
pub open spec fn row_cell(i: int, j: int) -> int {
    cell_index(i, j)
}

/// Position of the `j`-th cell of column `i`.
pub open spec fn column_cell(i: int, j: int) -> int {
    cell_index(j, i)
}

/// Position of the `j`-th cell of block `i`. Blocks are numbered row by row,
/// and so are the cells inside a block.
pub open spec fn block_cell(i: int, j: int) -> int {
    cell_index((i / 3) * 3 + j / 3, (i % 3) * 3 + j % 3)
}

/// The block that holds the cell at row `r`, column `c`.
pub open spec fn block_of(r: int, c: int) -> int {
    (r / 3) * 3 + c / 3
}

/// The place inside its block of the cell at row `r`, column `c`.
pub open spec fn place_in_block(r: int, c: int) -> int {
    (r % 3) * 3 + c % 3
}

/// The nine cells of row `i`, from left to right.
pub open spec fn row(b: Seq<u8>, i: int) -> Seq<u8> {
    Seq::new(9, |j: int| b[row_cell(i, j)])
}

/// The nine cells of column `i`, from top to bottom.
pub open spec fn column(b: Seq<u8>, i: int) -> Seq<u8> {
    Seq::new(9, |j: int| b[column_cell(i, j)])
}

/// The nine cells of block `i`.
pub open spec fn block(b: Seq<u8>, i: int) -> Seq<u8> {
    Seq::new(9, |j: int| b[block_cell(i, j)])
}

/// The unit holds the same non-zero value at two places. Blanks never count.
pub open spec fn has_repeat(unit: Seq<u8>) -> bool {
    exists|j: int, k: int|
        #![trigger unit[j], unit[k]]
        0 <= j < k < unit.len() && unit[j] != 0 && unit[j] == unit[k]
}

/// Row `i`, column `i` and block `i` are each free of repeats.
pub open spec fn units_hold(b: Seq<u8>, i: int) -> bool {
    &&& !has_repeat(row(b, i))
    &&& !has_repeat(column(b, i))
    &&& !has_repeat(block(b, i))
}

/// The rule of the game: no row, column or block holds a non-zero value
/// twice.
pub open spec fn is_valid(b: Seq<u8>) -> bool {
    forall|i: int| 0 <= i < 9 ==> #[trigger] units_hold(b, i)
}

/// The value `d` occurs neither in row `r`, nor in column `c`, nor in the
/// block of the cell at row `r`, column `c`.
pub open spec fn fits(b: Seq<u8>, d: u8, r: int, c: int) -> bool {
    &&& !row(b, r).contains(d)
    &&& !column(b, c).contains(d)
    &&& !block(b, block_of(r, c)).contains(d)
}

/// Every cell of every unit lies on the board.
pub proof fn lemma_unit_cells_on_board(i: int, j: int)
    requires
        0 <= i < 9,
        0 <= j < 9,
    ensures
        0 <= row_cell(i, j) < 81,
        0 <= column_cell(i, j) < 81,
        0 <= block_cell(i, j) < 81,
{
}

/// A cell is the `c`-th of its row, the `r`-th of its column, and sits at
/// its place in its block.
pub proof fn lemma_units_of_cell(r: int, c: int)
    requires
        0 <= r < 9,
        0 <= c < 9,
    ensures
        row_cell(r, c) == cell_index(r, c),
        column_cell(c, r) == cell_index(r, c),
        0 <= block_of(r, c) < 9,
        0 <= place_in_block(r, c) < 9,
        block_cell(block_of(r, c), place_in_block(r, c)) == cell_index(r, c),
{
}

/// Two cells at the same position are in the same row and the same column.
pub proof fn lemma_cell_index_unique(r1: int, c1: int, r2: int, c2: int)
    requires
        0 <= c1 < 9,
        0 <= c2 < 9,
        cell_index(r1, c1) == cell_index(r2, c2),
    ensures
        r1 == r2,
        c1 == c2,
{
}

/// The `j`-th cell of block `i` is the cell at row `r`, column `c` exactly
/// when `i` is the block of that cell and `j` its place in the block.
pub proof fn lemma_block_cell_unique(i: int, j: int, r: int, c: int)
    requires
        0 <= i < 9,
        0 <= j < 9,
        0 <= r < 9,
        0 <= c < 9,
    ensures
        block_cell(i, j) == cell_index(r, c) <==> i == block_of(r, c) && j == place_in_block(
            r,
            c,
        ),
{
    if block_cell(i, j) == cell_index(r, c) {
        lemma_cell_index_unique((i / 3) * 3 + j / 3, (i % 3) * 3 + j % 3, r, c);
        assert(r / 3 == i / 3 && r % 3 == j / 3);
        assert(c / 3 == i % 3 && c % 3 == j % 3);
    }
}

/// Two places of a unit that hold the same non-zero value make a repeat.
pub proof fn lemma_two_equal_repeat(unit: Seq<u8>, j: int, k: int)
    requires
        0 <= j < unit.len(),
        0 <= k < unit.len(),
        j != k,
        unit[j] != 0,
        unit[j] == unit[k],
    ensures
        has_repeat(unit),
{
    if j < k {
        assert(0 <= j < k < unit.len() && unit[j] != 0 && unit[j] == unit[k]);
    } else {
        assert(0 <= k < j < unit.len() && unit[k] != 0 && unit[k] == unit[j]);
    }
}

/// Overwriting one place of a unit with a value that occurs nowhere in it
/// creates no repeat.
pub proof fn lemma_unit_update(unit: Seq<u8>, p: int, d: u8)
    requires
        0 <= p < unit.len(),
        !has_repeat(unit),
        !unit.contains(d),
    ensures
        !has_repeat(unit.update(p, d)),
{
    let after = unit.update(p, d);
    if has_repeat(after) {
        let (j, k) = choose|j: int, k: int|
            #![trigger after[j], after[k]]
            0 <= j < k < after.len() && after[j] != 0 && after[j] == after[k];
        if j == p {
            assert(unit[k] == d);
        } else if k == p {
            assert(unit[j] == d);
        } else {
            assert(unit[j] != 0 && unit[j] == unit[k]);
        }
    }
}

/// A repeat stays a repeat in any unit that keeps all the non-zero values.
pub proof fn lemma_repeat_carries_over(unit: Seq<u8>, other: Seq<u8>)
    requires
        unit.len() == other.len(),
        forall|j: int| 0 <= j < unit.len() && #[trigger] unit[j] != 0 ==> other[j] == unit[j],
        has_repeat(unit),
    ensures
        has_repeat(other),
{
    let (j, k) = choose|j: int, k: int|
        #![trigger unit[j], unit[k]]
        0 <= j < k < unit.len() && unit[j] != 0 && unit[j] == unit[k];
    assert(other[j] == unit[j]);
    assert(other[k] == unit[k]);
    assert(0 <= j < k < other.len() && other[j] != 0 && other[j] == other[k]);
}

/// Writing `d` into the cell at row `r`, column `c` changes place `c` of
/// row `r` and no other row.
pub proof fn lemma_rows_after_write(b: Seq<u8>, r: int, c: int, d: u8, i: int)
    requires
        b.len() == 81,
        0 <= r < 9,
        0 <= c < 9,
        0 <= i < 9,
    ensures
        row(b.update(cell_index(r, c), d), i) == if i == r {
            row(b, i).update(c, d)
        } else {
            row(b, i)
        },
{
    let after = b.update(cell_index(r, c), d);
    if i == r {
        assert(row(after, i) =~= row(b, i).update(c, d));
    } else {
        assert(row(after, i) =~= row(b, i));
    }
}

/// Writing `d` into the cell at row `r`, column `c` changes place `r` of
/// column `c` and no other column.
pub proof fn lemma_columns_after_write(b: Seq<u8>, r: int, c: int, d: u8, i: int)
    requires
        b.len() == 81,
        0 <= r < 9,
        0 <= c < 9,
        0 <= i < 9,
    ensures
        column(b.update(cell_index(r, c), d), i) == if i == c {
            column(b, i).update(r, d)
        } else {
            column(b, i)
        },
{
    let after = b.update(cell_index(r, c), d);
    if i == c {
        assert(column(after, i) =~= column(b, i).update(r, d));
    } else {
        assert(column(after, i) =~= column(b, i));
    }
}

/// Writing `d` into the cell at row `r`, column `c` changes one place of
/// the block of that cell and no other block.
pub proof fn lemma_blocks_after_write(b: Seq<u8>, r: int, c: int, d: u8, i: int)
    requires
        b.len() == 81,
        0 <= r < 9,
        0 <= c < 9,
        0 <= i < 9,
    ensures
        block(b.update(cell_index(r, c), d), i) == if i == block_of(r, c) {
            block(b, i).update(place_in_block(r, c), d)
        } else {
            block(b, i)
        },
{
    let after = b.update(cell_index(r, c), d);
    let expected = if i == block_of(r, c) {
        block(b, i).update(place_in_block(r, c), d)
    } else {
        block(b, i)
    };
    assert forall|j: int| 0 <= j < 9 implies block(after, i)[j] == expected[j] by {
        lemma_block_cell_unique(i, j, r, c);
        lemma_unit_cells_on_board(i, j);
    }
    assert(block(after, i) =~= expected);
}

/// Placing a value that fits keeps a valid board valid.
pub proof fn lemma_place_keeps_valid(b: Seq<u8>, r: int, c: int, d: u8)
    requires
        b.len() == 81,
        0 <= r < 9,
        0 <= c < 9,
        is_valid(b),
        fits(b, d, r, c),
    ensures
        is_valid(b.update(cell_index(r, c), d)),
{
    let after = b.update(cell_index(r, c), d);
    lemma_units_of_cell(r, c);
    assert forall|i: int| 0 <= i < 9 implies #[trigger] units_hold(after, i) by {
        assert(units_hold(b, i));
        lemma_rows_after_write(b, r, c, d, i);
        lemma_columns_after_write(b, r, c, d, i);
        lemma_blocks_after_write(b, r, c, d, i);
        if i == r {
            lemma_unit_update(row(b, i), c, d);
        }
        if i == c {
            lemma_unit_update(column(b, i), r, d);
        }
        if i == block_of(r, c) {
            lemma_unit_update(block(b, i), place_in_block(r, c), d);
        }
    }
}

} // verus!
