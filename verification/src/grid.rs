//! The board: cell locations, region arithmetic, and the validated `Grid` type.

use vstd::prelude::*;

use crate::codec::{parse_grid_text, parse_text, render_grid, render_text, SudokuParseError};
use crate::generator::GeneratingSudokuError;
use crate::grid_utils::{clone_grid, grid_values_array_to_vec, ConstGridValues};
use crate::model::{
    col_seq, col_valid, dup_free, grid_complete, grid_set, grid_valid, region_anchor_column,
    region_anchor_line, region_of, region_seq, region_valid, row_seq, row_valid, wf_grid,
};
use crate::solver::{
    cell_not_missing, cells_lex_leq, complexity_sorted_locs, is_completion,
    lemma_filled_missing_complete, lemma_missing_count, lemma_missing_locs_props, missing_locs,
    NoSudokuSolutionFound,
};
use crate::validation::{
    first_invalid_from, new_box_error, validate, validate_round, ValidationError,
};

verus! {

/// A full board of cell values: nine rows of nine cells, 0 meaning "unknown".
pub type GridValues = Vec<Vec<u8>>;

/// A cell position: its line, its column, and the region those two determine.
#[derive(Debug, Clone, Copy, PartialEq, Eq, Structural)]
pub struct BoxLocation {
    pub line: usize,
    pub column: usize,
    pub region: u8,
}

impl BoxLocation {
    /// Line and column are on the board and the region is the one of the cell.
    pub open spec fn wf(self) -> bool {
        &&& self.line < 9
        &&& self.column < 9
        &&& self.region == region_of(self.line as int, self.column as int)
    }

    /// Line, column and region are each within bounds, with no tie between them.
    pub open spec fn in_bounds(self) -> bool {
        &&& self.line < 9
        &&& self.column < 9
        &&& self.region < 9
    }
}

/// Error of `location_to_region`: the coordinates lie outside the board.
#[derive(Debug, Clone)]
pub struct NoRegionFound {
    pub line: usize,
    pub column: usize,
}

/// Parse coordinates (line, column) into a region index.
///
/// Scans the nine fixed 3x3 anchors and returns the one whose span contains
/// the cell; coordinates off the board have no region.
pub fn location_to_region(line: &usize, col: &usize) -> (r: Result<u8, NoRegionFound>)
    ensures
        r is Ok <==> (*line < 9 && *col < 9),
        r is Ok ==> r->Ok_0 == region_of(*line as int, *col as int) && r->Ok_0 < 9,
        r is Err ==> r->Err_0 == (NoRegionFound { line: *line, column: *col }),
{
    let mut index: u8 = 0;
    while index < 9
        invariant
            index <= 9,
            forall|k: int|
                0 <= k < index ==> !(#[trigger] region_anchor_line(k) <= *line
                    < region_anchor_line(k) + 3 && region_anchor_column(k) <= *col
                    < region_anchor_column(k) + 3),
        decreases 9 - index,
    {
        let (start_row, start_column) = region_to_location(&index);

        let in_region_row = *line >= start_row && *line <= start_row + 2;
        let in_region_column = *col >= start_column && *col <= start_column + 2;

        if in_region_row && in_region_column {
            proof {
                lemma_region_span(index as int, *line as int, *col as int);
            }
            return Ok(index);
        }

        index += 1;
    }

    proof {
        if *line < 9 && *col < 9 {
            let k = region_of(*line as int, *col as int);
            lemma_region_span(k, *line as int, *col as int);
        }
    }
    Err(NoRegionFound { line: *line, column: *col })
}

/// Parse a region index into the coordinates (line, column) of its top-left cell.
pub fn region_to_location(region_index: &u8) -> (r: (usize, usize))
    requires
        *region_index < 9,
    ensures
        r.0 == region_anchor_line(*region_index as int),
        r.1 == region_anchor_column(*region_index as int),
        r.0 <= 6 && r.1 <= 6,
{
    match region_index {
        0 => (0usize, 0usize),
        1 => (0usize, 3usize),
        2 => (0usize, 6usize),
        3 => (3usize, 0usize),
        4 => (3usize, 3usize),
        5 => (3usize, 6usize),
        6 => (6usize, 0usize),
        7 => (6usize, 3usize),
        _ => (6usize, 6usize),
    }
}

/// A location whose region is the one of its cell is in bounds.
pub proof fn lemma_wf_in_bounds(loc: BoxLocation)
    requires
        loc.wf(),
    ensures
        loc.in_bounds(),
{
    assert(0 <= (loc.line as int / 3) * 3 + loc.column as int / 3 < 9) by (nonlinear_arith)
        requires
            loc.line < 9,
            loc.column < 9,
    ;
}

/// A cell lies in the 3x3 span of region `k` exactly when `k` is its region.
pub proof fn lemma_region_span(k: int, line: int, col: int)
    requires
        0 <= k < 9,
        0 <= line < 9,
        0 <= col < 9,
    ensures
        (region_anchor_line(k) <= line < region_anchor_line(k) + 3 && region_anchor_column(k)
            <= col < region_anchor_column(k) + 3) <==> k == region_of(line, col),
{
    assert((3 * (k / 3) <= line < 3 * (k / 3) + 3) <==> line / 3 == k / 3) by (nonlinear_arith)
        requires
            0 <= k < 9,
            0 <= line < 9,
    ;
    assert((3 * (k % 3) <= col < 3 * (k % 3) + 3) <==> col / 3 == k % 3) by (nonlinear_arith)
        requires
            0 <= k < 9,
            0 <= col < 9,
    ;
    assert(k == (k / 3) * 3 + k % 3) by (nonlinear_arith)
        requires
            0 <= k,
    ;
    assert((line / 3 == k / 3 && col / 3 == k % 3) <==> k == region_of(line, col));
}

/// The nine regions partition the 81 cells: every cell on the board belongs
/// to exactly one region, the fixed 3x3 block containing it.
pub proof fn lemma_region_partition()
    ensures
        forall|line: int, col: int|
            0 <= line < 9 && 0 <= col < 9 ==> 0 <= #[trigger] region_of(line, col) < 9,
        forall|line: int, col: int, k: int|
            #![trigger region_anchor_line(k), region_of(line, col)]
            0 <= line < 9 && 0 <= col < 9 && 0 <= k < 9 ==> ((region_anchor_line(k) <= line
                < region_anchor_line(k) + 3 && region_anchor_column(k) <= col
                < region_anchor_column(k) + 3) <==> k == region_of(line, col)),
{
    assert forall|line: int, col: int, k: int|
        0 <= line < 9 && 0 <= col < 9 && 0 <= k < 9 implies ((#[trigger] region_anchor_line(k)
        <= line < region_anchor_line(k) + 3 && region_anchor_column(k) <= col
        < region_anchor_column(k) + 3) <==> k == #[trigger] region_of(line, col)) by {
        lemma_region_span(k, line, col);
    }
}

/// Why a board was refused at construction.
#[derive(Debug, Clone, Copy, PartialEq, Eq, Structural)]
pub enum GridError {
    /// The board does not have nine lines.
    WrongLineCount { count: usize },
    /// A line does not have nine columns.
    WrongColumnCount { line: usize, count: usize },
    /// A cell holds a value above 9.
    ValueOutOfBound { line: usize, column: usize, value: u8 },
    /// The shape is right but a line, column or region holds a duplicate.
    Validation(ValidationError),
}

/// Why a serialized board was refused.
#[derive(Debug, Clone, Copy, PartialEq, Eq, Structural)]
pub enum FromTextError {
    /// The text does not parse in the external format.
    Syntax(SudokuParseError),
    /// The text parses but the board it carries is refused by `Grid::new`.
    Refused(GridError),
}

/// The first column of the line holding a value above 9, or 9 if none does.
pub open spec fn first_oob_col(row: Seq<u8>, c: int) -> int
    decreases row.len() - c,
{
    if c < 0 || c >= row.len() {
        c
    } else if row[c] > 9 {
        c
    } else {
        first_oob_col(row, c + 1)
    }
}

/// The shape error of one line: wrong column count, or a value out of bound.
pub open spec fn row_shape_error(vs: Seq<Seq<u8>>, r: int) -> Option<GridError> {
    if vs[r].len() != 9 {
        Some(GridError::WrongColumnCount { line: r as usize, count: vs[r].len() as usize })
    } else if first_oob_col(vs[r], 0) < 9 {
        Some(GridError::ValueOutOfBound {
            line: r as usize,
            column: first_oob_col(vs[r], 0) as usize,
            value: vs[r][first_oob_col(vs[r], 0)],
        })
    } else {
        None
    }
}

/// The first shape error of the board, scanning lines top to bottom.
pub open spec fn first_shape_error_from(vs: Seq<Seq<u8>>, r: int) -> Option<GridError>
    decreases vs.len() - r,
{
    if r < 0 || r >= vs.len() {
        None
    } else if row_shape_error(vs, r) is Some {
        row_shape_error(vs, r)
    } else {
        first_shape_error_from(vs, r + 1)
    }
}

/// The error `Grid::new` reports on a refused board: the wrong line count,
/// else the first shape error in line order, else the first validation error.
pub open spec fn grid_error_of(vs: Seq<Seq<u8>>) -> GridError {
    if vs.len() != 9 {
        GridError::WrongLineCount { count: vs.len() as usize }
    } else if first_shape_error_from(vs, 0) is Some {
        first_shape_error_from(vs, 0)->Some_0
    } else {
        GridError::Validation(new_box_error(vs, validate_round(first_invalid_from(vs, 0))))
    }
}

proof fn lemma_first_oob_skip(row: Seq<u8>, c: int)
    requires
        0 <= c <= row.len(),
        forall|k: int| 0 <= k < c ==> row[k] <= 9,
    ensures
        first_oob_col(row, 0) == first_oob_col(row, c),
    decreases c,
{
    if c > 0 {
        lemma_first_oob_skip(row, c - 1);
    }
}

proof fn lemma_first_shape_skip(vs: Seq<Seq<u8>>, r: int)
    requires
        0 <= r <= vs.len(),
        forall|k: int| 0 <= k < r ==> row_shape_error(vs, k) is None,
    ensures
        first_shape_error_from(vs, 0) == first_shape_error_from(vs, r),
    decreases r,
{
    if r > 0 {
        lemma_first_shape_skip(vs, r - 1);
    }
}

/// A validated board: nine lines of nine cells, values at most 9, and no
/// duplicate known value in any line, column or region.
#[derive(Debug, Clone)]
pub struct Grid {
    pub values: GridValues,
}

impl View for Grid {
    type V = Seq<Seq<u8>>;

    open spec fn view(&self) -> Seq<Seq<u8>> {
        self.values.deep_view()
    }
}

impl Grid {
    /// The invariant every constructed grid carries.
    pub open spec fn inv(self) -> bool {
        wf_grid(self@) && grid_valid(self@)
    }

    /// Builds a grid after checking shape, range and the Sudoku invariant.
    /// Succeeds exactly on well-formed, duplicate-free boards and hands the
    /// values back unchanged; a refused board is reported with the first
    /// offence found.
    pub fn new(values: GridValues) -> (r: Result<Grid, GridError>)
        ensures
            r is Ok <==> (wf_grid(values.deep_view()) && grid_valid(values.deep_view())),
            r is Ok ==> r->Ok_0@ == values.deep_view() && r->Ok_0.inv(),
            r is Err ==> r->Err_0 == grid_error_of(values.deep_view()),
    {
        let ghost vs = values.deep_view();

        if values.len() != 9 {
            return Err(GridError::WrongLineCount { count: values.len() });
        }

        let mut row_index: usize = 0;
        while row_index < 9
            invariant
                row_index <= 9,
                vs == values.deep_view(),
                values@.len() == 9,
                forall|k: int| 0 <= k < row_index ==> row_shape_error(vs, k) is None,
            decreases 9 - row_index,
        {
            let row = &values[row_index];
            proof {
                assert(row@ =~= vs[row_index as int]);
            }

            if row.len() != 9 {
                proof {
                    lemma_first_shape_skip(vs, row_index as int);
                }
                return Err(GridError::WrongColumnCount { line: row_index, count: row.len() });
            }

            let mut column_index: usize = 0;
            while column_index < 9
                invariant
                    row_index < 9,
                    column_index <= 9,
                    vs == values.deep_view(),
                    values@.len() == 9,
                    row@ == vs[row_index as int],
                    row@.len() == 9,
                    forall|k: int| 0 <= k < row_index ==> row_shape_error(vs, k) is None,
                    forall|k: int| 0 <= k < column_index ==> vs[row_index as int][k] <= 9,
                decreases 9 - column_index,
            {
                if row[column_index] > 9 {
                    proof {
                        lemma_first_oob_skip(vs[row_index as int], column_index as int);
                        lemma_first_shape_skip(vs, row_index as int);
                    }
                    return Err(GridError::ValueOutOfBound {
                        line: row_index,
                        column: column_index,
                        value: row[column_index],
                    });
                }
                column_index += 1;
            }

            proof {
                lemma_first_oob_skip(vs[row_index as int], 9);
                assert(row_shape_error(vs, row_index as int) is None);
            }
            row_index += 1;
        }

        proof {
            lemma_first_shape_skip(vs, 9);
            assert(wf_grid(vs)) by {
                assert forall|r: int| 0 <= r < 9 implies (#[trigger] vs[r]).len() == 9 by {
                    assert(row_shape_error(vs, r) is None);
                }
                assert forall|r: int, c: int| 0 <= r < 9 && 0 <= c < 9 implies #[trigger] vs[r][c]
                    <= 9 by {
                    assert(row_shape_error(vs, r) is None);
                    assert(first_oob_col(vs[r], 0) >= 9);
                    lemma_oob_bound(vs[r], c);
                }
            }
        }

        match validate(&values) {
            Ok(_) => Ok(Grid { values }),
            Err(err) => Err(GridError::Validation(err)),
        }
    }

    /// Builds a grid from a fixed-size array, as `new` does.
    pub fn from_array(array: ConstGridValues) -> (r: Result<Grid, GridError>)
        ensures
            r is Ok <==> (wf_grid(array_view(array)) && grid_valid(array_view(array))),
            r is Ok ==> r->Ok_0@ == array_view(array) && r->Ok_0.inv(),
            r is Err ==> r->Err_0 == grid_error_of(array_view(array)),
    {
        let values = grid_values_array_to_vec(array);
        proof {
            assert(values.deep_view() =~~= array_view(array));
        }
        Grid::new(values)
    }

    /// Generates a grid: a complete random solution, optionally with
    /// `nb_to_remove` random cells cleared back to "unknown".
    pub fn generate(nb_to_remove: Option<u8>) -> (r: Result<Grid, GeneratingSudokuError>)
        requires
            nb_to_remove is Some ==> nb_to_remove->0 < 81,
        ensures
            r is Ok ==> r->Ok_0.inv(),
            r is Ok && nb_to_remove is None ==> grid_complete(r->Ok_0@),
            r is Ok && nb_to_remove is Some ==> missing_locs(r->Ok_0@).len()
                == nb_to_remove->0 as int,
    {
        let full = match crate::generator::generate() {
            Ok(values) => values,
            Err(err) => {
                return Err(err);
            },
        };

        let values = match nb_to_remove {
            Some(to_remove) => {
                let (removed, locations) = crate::generator::remove_random_values(
                    &full,
                    to_remove,
                );
                proof {
                    assert forall|rr: int, cc: int|
                        0 <= rr < 9 && 0 <= cc < 9 implies (#[trigger] removed.deep_view()[rr][cc]
                        == 0 <==> !cell_not_missing(locations@, rr, cc)) by {
                        assert(full.deep_view()[rr][cc] != 0);
                    }
                    lemma_missing_count(removed.deep_view(), locations@);
                }
                removed
            },
            None => full,
        };

        match Grid::new(values) {
            Ok(grid) => Ok(grid),
            Err(_) => {
                proof {
                    assert(false);
                }
                Err(GeneratingSudokuError)
            },
        }
    }

    /// Locations of every unknown cell, lines top to bottom, columns left to
    /// right.
    pub fn locate_missing_box(&self) -> (r: Vec<BoxLocation>)
        requires
            wf_grid(self@),
        ensures
            r@ == missing_locs(self@),
    {
        crate::solver::locate_missing_box(&self.values)
    }

    /// Clears `nb_to_remove` distinct random cells to "unknown" and returns
    /// their locations.
    pub fn remove_random_values(&mut self, nb_to_remove: u8) -> (r: Vec<BoxLocation>)
        requires
            old(self).inv(),
            nb_to_remove < 81,
        ensures
            final(self).inv(),
            r@.len() == nb_to_remove as int,
            forall|m: int| 0 <= m < r@.len() ==> (#[trigger] r@[m]).wf(),
            forall|m1: int, m2: int|
                0 <= m1 < m2 < r@.len() ==> ((#[trigger] r@[m1]).line != (#[trigger] r@[m2]).line
                    || r@[m1].column != r@[m2].column),
            forall|rr: int, cc: int|
                0 <= rr < 9 && 0 <= cc < 9 ==> #[trigger] final(self)@[rr][cc] == (
                if cell_not_missing(r@, rr, cc) {
                    old(self)@[rr][cc]
                } else {
                    0
                }),
            grid_complete(old(self)@) ==> missing_locs(final(self)@).len() == nb_to_remove as int,
    {
        let ghost g0 = self@;
        let (values, locations) = crate::generator::remove_random_values(
            &self.values,
            nb_to_remove,
        );
        proof {
            if grid_complete(g0) {
                assert forall|rr: int, cc: int|
                    0 <= rr < 9 && 0 <= cc < 9 implies (#[trigger] values.deep_view()[rr][cc] == 0
                    <==> !cell_not_missing(locations@, rr, cc)) by {
                    assert(g0[rr][cc] != 0);
                }
                lemma_missing_count(values.deep_view(), locations@);
            }
        }
        self.values = values;
        locations
    }

    /// Fills every unknown cell by backtracking search.  On success the grid
    /// is complete, still valid, keeps every given cell, and is the first
    /// completion under the solver's fixed search order, so solving a grid
    /// twice gives the same result.  An already-complete grid comes back
    /// unchanged; the search fails exactly when the puzzle has no solution,
    /// and then leaves the grid untouched.
    pub fn solve(&mut self) -> (r: Result<(), NoSudokuSolutionFound>)
        requires
            old(self).inv(),
        ensures
            final(self).inv(),
            r is Err ==> final(self)@ == old(self)@,
            r is Ok ==> grid_complete(final(self)@),
            r is Ok ==> (forall|rr: int, cc: int|
                0 <= rr < 9 && 0 <= cc < 9 && old(self)@[rr][cc] != 0
                    ==> #[trigger] final(self)@[rr][cc] == old(self)@[rr][cc]),
            grid_complete(old(self)@) ==> r is Ok && final(self)@ == old(self)@,
            r is Err ==> !(exists|s: Seq<Seq<u8>>|
                is_completion(old(self)@, missing_locs(old(self)@), s)),
            (exists|s: Seq<Seq<u8>>| is_completion(old(self)@, missing_locs(old(self)@), s))
                ==> r is Ok,
            r is Ok ==> (forall|s: Seq<Seq<u8>>|
                #[trigger] is_completion(old(self)@, missing_locs(old(self)@), s)
                    ==> cells_lex_leq(
                    complexity_sorted_locs(old(self)@, missing_locs(old(self)@)),
                    0,
                    final(self)@,
                    s,
                )),
    {
        let missing_boxes = crate::solver::locate_missing_box(&self.values);
        proof {
            lemma_missing_locs_props(self@);
        }

        match crate::solver::solve(&self.values, &missing_boxes) {
            Ok(values) => {
                proof {
                    lemma_filled_missing_complete(self@, values.deep_view());
                    assert forall|rr: int, cc: int|
                        0 <= rr < 9 && 0 <= cc < 9 && self@[rr][cc] != 0 implies #[trigger] values.deep_view()[rr][cc]
                        == self@[rr][cc] by {
                        assert(cell_not_missing(missing_boxes@, rr, cc)) by {
                            if !cell_not_missing(missing_boxes@, rr, cc) {
                                let k = choose|k: int|
                                    0 <= k < missing_boxes@.len() && ((
                                #[trigger] missing_boxes@[k]).line == rr && missing_boxes@[k].column
                                    == cc);
                                assert(self@[rr][cc] == 0);
                            }
                        }
                    }
                }
                self.values = values;
                Ok(())
            },
            Err(err) => Err(err),
        }
    }

    /// Builds a grid from its serialized text form, as `new` does once the
    /// text parses.
    pub fn from_text(serialized: &Vec<u8>) -> (r: Result<Grid, FromTextError>)
        ensures
            r is Ok <==> (parse_text(serialized@) is Some && wf_grid(parse_text(serialized@)->Some_0)
                && grid_valid(parse_text(serialized@)->Some_0)),
            r is Ok ==> r->Ok_0@ == parse_text(serialized@)->Some_0 && r->Ok_0.inv(),
            parse_text(serialized@) is None ==> r == Err::<Grid, FromTextError>(FromTextError::Syntax(SudokuParseError)),
            parse_text(serialized@) is Some && !(wf_grid(parse_text(serialized@)->Some_0)
                && grid_valid(parse_text(serialized@)->Some_0)) ==> r == Err::<Grid, FromTextError>(
                FromTextError::Refused(grid_error_of(parse_text(serialized@)->Some_0)),
            ),
    {
        let values = match parse_grid_text(serialized) {
            Ok(values) => values,
            Err(err) => {
                return Err(FromTextError::Syntax(err));
            },
        };

        match Grid::new(values) {
            Ok(grid) => Ok(grid),
            Err(err) => Err(FromTextError::Refused(err)),
        }
    }

    /// The board serialized in the external text format.
    pub fn to_text(&self) -> (r: Vec<u8>)
        requires
            wf_grid(self@),
        ensures
            r@ == render_text(self@),
    {
        render_grid(&self.values)
    }

    /// A copy of the board's values.
    pub fn get_values(&self) -> (r: GridValues)
        ensures
            r.deep_view() == self@,
            r@.len() == self@.len(),
    {
        clone_grid(&self.values)
    }
}

/// A fixed-size board array seen as the model's nested sequences.
pub open spec fn array_view(array: ConstGridValues) -> Seq<Seq<u8>> {
    Seq::new(9, |i: int| Seq::new(9, |j: int| array@[i]@[j]))
}

/// A sequence whose cells each kept their value or were cleared to 0 stays
/// free of duplicates.
pub proof fn lemma_dup_free_weaken(s: Seq<u8>, s2: Seq<u8>)
    requires
        s2.len() == s.len(),
        forall|k: int| 0 <= k < s2.len() ==> s2[k] == s[k] || #[trigger] s2[k] == 0,
        dup_free(s),
    ensures
        dup_free(s2),
{
    assert forall|i: int, j: int|
        #![trigger s2[i], s2[j]]
        0 <= i < j < s2.len() && s2[i] == s2[j] implies s2[j] == 0 by {
        if s2[j] != 0 {
            assert(s2[i] == s[i] && s2[j] == s[j]);
        }
    }
}

/// Placing a value keeps the whole grid valid as soon as the three scans
/// that contain the written cell pass: every other line, column and region
/// is untouched by the write.
#[verifier::spinoff_prover]
#[verifier::rlimit(50)]
pub proof fn lemma_local_validity(g: Seq<Seq<u8>>, r: int, c: int, v: u8)
    requires
        wf_grid(g),
        grid_valid(g),
        0 <= r < 9,
        0 <= c < 9,
        v <= 9,
        dup_free(row_seq(grid_set(g, r, c, v), r)),
        dup_free(col_seq(grid_set(g, r, c, v), c)),
        dup_free(region_seq(grid_set(g, r, c, v), region_of(r, c))),
    ensures
        grid_valid(grid_set(g, r, c, v)),
{
    let g2 = grid_set(g, r, c, v);
    assert forall|i: int|
        0 <= i < 9 implies #[trigger] row_valid(g2, i) && col_valid(g2, i) && region_valid(
        g2,
        i,
    ) by {
        assert(grid_valid(g));
        assert(row_valid(g, i));
        assert(col_valid(g, i) && region_valid(g, i));
        if i != r {
            assert(row_seq(g2, i) == row_seq(g, i));
        }
        if i != c {
            assert(col_seq(g2, i) =~= col_seq(g, i));
        }
        if i != region_of(r, c) {
            assert(region_seq(g2, i) =~= region_seq(g, i)) by {
                assert forall|k: int| 0 <= k < 9 implies region_seq(g2, i)[k] == region_seq(
                    g,
                    i,
                )[k] by {
                    let line = region_anchor_line(i) + k / 3;
                    let col = region_anchor_column(i) + k % 3;
                    if line == r && col == c {
                        lemma_region_span(i, line, col);
                    }
                }
            }
        }
        assert(row_valid(g2, i) && col_valid(g2, i) && region_valid(g2, i));
    }
    assert(grid_valid(g2));
}

/// Clearing one cell to "unknown" keeps a valid grid valid.
pub proof fn lemma_zero_cell_valid(g: Seq<Seq<u8>>, r: int, c: int)
    requires
        wf_grid(g),
        grid_valid(g),
        0 <= r < 9,
        0 <= c < 9,
    ensures
        grid_valid(grid_set(g, r, c, 0)),
{
    let g2 = grid_set(g, r, c, 0);
    assert forall|i: int|
        0 <= i < 9 implies #[trigger] row_valid(g2, i) && col_valid(g2, i) && region_valid(
        g2,
        i,
    ) by {
        assert(grid_valid(g));
        assert(row_valid(g, i));
        assert(col_valid(g, i) && region_valid(g, i));
        assert forall|k: int| 0 <= k < 9 implies row_seq(g2, i)[k] == row_seq(g, i)[k]
            || #[trigger] row_seq(g2, i)[k] == 0 by {}
        lemma_dup_free_weaken(row_seq(g, i), row_seq(g2, i));
        assert forall|k: int| 0 <= k < 9 implies col_seq(g2, i)[k] == col_seq(g, i)[k]
            || #[trigger] col_seq(g2, i)[k] == 0 by {}
        lemma_dup_free_weaken(col_seq(g, i), col_seq(g2, i));
        assert forall|k: int| 0 <= k < 9 implies region_seq(g2, i)[k] == region_seq(g, i)[k]
            || #[trigger] region_seq(g2, i)[k] == 0 by {}
        lemma_dup_free_weaken(region_seq(g, i), region_seq(g2, i));
    }
}

proof fn lemma_oob_bound(row: Seq<u8>, c: int)
    requires
        0 <= c < row.len(),
        first_oob_col(row, 0) >= row.len(),
    ensures
        row[c] <= 9,
{
    lemma_oob_bound_from(row, 0, c);
}

proof fn lemma_oob_bound_from(row: Seq<u8>, j: int, c: int)
    requires
        0 <= j <= c < row.len(),
        first_oob_col(row, j) >= row.len(),
    ensures
        row[c] <= 9,
    decreases c - j,
{
    if j < c {
        lemma_oob_bound_from(row, j + 1, c);
    }
}

} // verus!
