//! Small executable helpers on whole boards.

use vstd::prelude::*;

use crate::grid::GridValues;
use crate::model::grid_set;

verus! {

/// A board given as a fixed-size array, row by row.
pub type ConstGridValues = [[u8; 9]; 9];

/// Turns a fixed-size board array into the vector form the library works on.
pub fn grid_values_array_to_vec(val: ConstGridValues) -> (r: GridValues)
    ensures
        r@.len() == 9,
        forall|i: int| 0 <= i < 9 ==> (#[trigger] r@[i])@.len() == 9,
        forall|i: int, j: int| #![trigger r@[i]@[j]] 0 <= i < 9 && 0 <= j < 9 ==> r@[i]@[j] == val@[i]@[j],
{
    let mut to_return: GridValues = Vec::new();

    let mut i: usize = 0;
    while i < 9
        invariant
            i <= 9,
            to_return@.len() == i,
            forall|k: int| 0 <= k < i ==> (#[trigger] to_return@[k])@.len() == 9,
            forall|k: int, j: int|
                #![trigger to_return@[k]@[j]]
                0 <= k < i && 0 <= j < 9 ==> to_return@[k]@[j] == val@[k]@[j],
        decreases 9 - i,
    {
        let mut line: Vec<u8> = Vec::new();
        let mut j: usize = 0;
        while j < 9
            invariant
                i < 9,
                j <= 9,
                line@.len() == j,
                forall|k: int| 0 <= k < j ==> line@[k] == val@[i as int]@[k],
            decreases 9 - j,
        {
            line.push(val[i][j]);
            j += 1;
        }
        to_return.push(line);
        i += 1;
    }

    to_return
}

/// Copies a board cell by cell.
pub fn clone_grid(values: &GridValues) -> (r: GridValues)
    ensures
        r@.len() == values@.len(),
        r.deep_view() == values.deep_view(),
{
    let mut r: GridValues = Vec::new();
    let mut i: usize = 0;
    while i < values.len()
        invariant
            i <= values@.len(),
            r@.len() == i,
            forall|k: int| 0 <= k < i ==> (#[trigger] r@[k])@ == values@[k]@,
        decreases values@.len() - i,
    {
        let src = &values[i];
        let mut row: Vec<u8> = Vec::new();
        let mut j: usize = 0;
        while j < src.len()
            invariant
                j <= src@.len(),
                row@.len() == j,
                forall|k: int| 0 <= k < j ==> row@[k] == src@[k],
            decreases src@.len() - j,
        {
            row.push(src[j]);
            j += 1;
        }
        proof {
            assert(row@ =~= values@[i as int]@);
        }
        r.push(row);
        i += 1;
    }
    proof {
        assert(r.deep_view() =~~= values.deep_view());
    }
    r
}

/// Overwrites one cell of the board.
pub fn set_cell(values: &mut GridValues, line: usize, col: usize, v: u8)
    requires
        line < old(values)@.len(),
        col < old(values)@[line as int]@.len(),
    ensures
        final(values).deep_view() == grid_set(old(values).deep_view(), line as int, col as int, v),
        final(values)@.len() == old(values)@.len(),
{
    let mut tmp: Vec<u8> = Vec::new();
    values.set_and_swap(line, &mut tmp);
    tmp.set(col, v);
    values.set_and_swap(line, &mut tmp);
    proof {
        assert(values.deep_view() =~~= grid_set(
            old(values).deep_view(),
            line as int,
            col as int,
            v,
        ));
    }
}

} // verus!
