//! The 9×9 board and its flattened, row-major form.

use vstd::prelude::*;

verus! {

/// The position in row-major order of the cell at row `r`, column `c`.
pub open spec fn cell_index(r: int, c: int) -> int {
    9 * r + c
}

/// Nine rows of nine cells each.
spec fn nine_by_nine(rows: Seq<Vec<u8>>) -> bool {
    &&& rows.len() == 9
    &&& forall|r: int| 0 <= r < 9 ==> (#[trigger] rows[r])@.len() == 9
}

/// The cells of nine rows, one row after the other.
spec fn flatten(rows: Seq<Vec<u8>>) -> Seq<u8> {
    Seq::new(81, |n: int| rows[n / 9]@[n % 9])
}

/// Overwrites one cell in place and leaves every other cell as it was.
fn write_cell(rows: &mut Vec<Vec<u8>>, r: usize, c: usize, v: u8)
    requires
        nine_by_nine(old(rows)@),
        r < 9,
        c < 9,
    ensures
        nine_by_nine(final(rows)@),
        flatten(final(rows)@) == flatten(old(rows)@).update(cell_index(r as int, c as int), v),
    no_unwind
{
    rows[r][c] = v;
    assert(flatten(rows@) =~= flatten(old(rows)@).update(cell_index(r as int, c as int), v));
}

/// A 9×9 board. A cell holds 0 when it is blank; any other value is a
/// given or a guess, in a puzzle proper a digit from 1 to 9.
///
/// The board is viewed as the sequence of its 81 cells in row-major order:
/// the cell at row `r`, column `c` is element `9 * r + c` of the view. That
/// there are nine rows of nine cells is an invariant of the type, so no
/// function asks for it.
pub struct Grid {
    rows: Vec<Vec<u8>>,
}

impl View for Grid {
    type V = Seq<u8>;

    closed spec fn view(&self) -> Seq<u8> {
        flatten(self.rows@)
    }
}

impl Clone for Grid {
    /// Copies the board cell by cell.
    fn clone(&self) -> (copy: Self)
        ensures
            copy@ == self@,
    {
        proof {
            use_type_invariant(self);
        }
        let mut rows: Vec<Vec<u8>> = Vec::new();
        for r in 0..9usize
            invariant
                nine_by_nine(self.rows@),
                rows@.len() == r,
                forall|i: int| 0 <= i < r ==> (#[trigger] rows@[i])@ == self.rows@[i]@,
        {
            rows.push(self.rows[r].clone());
        }
        let copy = Grid { rows };
        assert(copy@ =~= self@);
        copy
    }
}

impl Grid {
    /// The shape that every board has.
    #[verifier::type_invariant]
    spec fn well_formed(self) -> bool {
        nine_by_nine(self.rows@)
    }

    /// Every board has 81 cells.
    pub proof fn lemma_len(&self)
        ensures
            self@.len() == 81,
    {
    }

    /// Reshapes 81 cells given in row-major order into a board.
    pub fn from_flat(flat: &[u8]) -> (grid: Grid)
        requires
            flat@.len() == 81,
        ensures
            grid@ == flat@,
    {
        let mut rows: Vec<Vec<u8>> = Vec::new();
        for r in 0..9usize
            invariant
                flat@.len() == 81,
                rows@.len() == r,
                forall|i: int| 0 <= i < r ==> (#[trigger] rows@[i])@.len() == 9,
                forall|i: int, j: int|
                    0 <= i < r && 0 <= j < 9 ==> (#[trigger] rows@[i]@[j]) == flat@[9 * i + j],
        {
            let mut row: Vec<u8> = Vec::new();
            for c in 0..9usize
                invariant
                    r < 9,
                    flat@.len() == 81,
                    row@.len() == c,
                    forall|j: int| 0 <= j < c ==> (#[trigger] row@[j]) == flat@[9 * r + j],
            {
                row.push(flat[9 * r + c]);
            }
            rows.push(row);
        }
        let grid = Grid { rows };
        assert(grid@ =~= flat@);
        grid
    }

    /// Flattens the board into its 81 cells in row-major order.
    pub fn to_flat(&self) -> (flat: Vec<u8>)
        ensures
            flat@ == self@,
    {
        proof {
            use_type_invariant(self);
        }
        let mut flat: Vec<u8> = Vec::new();
        for r in 0..9usize
            invariant
                nine_by_nine(self.rows@),
                flat@.len() == 9 * r,
                forall|n: int| 0 <= n < 9 * r ==> (#[trigger] flat@[n]) == self@[n],
        {
            for c in 0..9usize
                invariant
                    r < 9,
                    nine_by_nine(self.rows@),
                    flat@.len() == 9 * r + c,
                    forall|n: int| 0 <= n < 9 * r + c ==> (#[trigger] flat@[n]) == self@[n],
            {
                flat.push(self.rows[r][c]);
            }
        }
        assert(flat@ =~= self@);
        flat
    }

    /// Reads the cell at row `r`, column `c`.
    pub fn get(&self, r: usize, c: usize) -> (v: u8)
        requires
            r < 9,
            c < 9,
        ensures
            v == self@[cell_index(r as int, c as int)],
    {
        proof {
            use_type_invariant(self);
        }
        self.rows[r][c]
    }

    /// Writes `v` into the cell at row `r`, column `c`.
    pub fn set(&mut self, r: usize, c: usize, v: u8)
        requires
            r < 9,
            c < 9,
        ensures
            final(self)@ == old(self)@.update(cell_index(r as int, c as int), v),
    {
        proof {
            use_type_invariant(&*self);
        }
        write_cell(&mut self.rows, r, c, v);
    }
}

} // verus!
